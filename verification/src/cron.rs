//! Crontab lines and plain-English schedule descriptions.

use vstd::prelude::*;
use crate::timeline::{dow_value_spec, eq_ignore_case, month_number_spec};
use crate::text::{
    contains_seq, join, join_strings, pad2, parse_u32, parse_u32_str, push_pad2, split_char,
    split_on_char, split_whitespace, starts_with, str_contains_char, str_eq, str_starts_with,
    words, trim, trim_str, fields_ws, split_fields, first_word, first_word_str, lines, split_lines, str_contains,
    decimal, digit_char, all_digits, unsigned_digits, digits_value, trim_start, trim_end, is_ws, lemma_fields_are_words, lemma_fields_len,
};

verus! {

/// Where a cron job is defined.
#[derive(Debug, Clone, PartialEq, Eq)]
pub enum CronSource {
    UserCrontab,
    SystemCrontab,
    CronD(String),
}

/// The mathematical value of a [`CronSource`].
pub enum CronSourceView {
    UserCrontab,
    SystemCrontab,
    CronD(Seq<char>),
}

impl View for CronSource {
    type V = CronSourceView;

    open spec fn view(&self) -> CronSourceView {
        match self {
            CronSource::UserCrontab => CronSourceView::UserCrontab,
            CronSource::SystemCrontab => CronSourceView::SystemCrontab,
            CronSource::CronD(name) => CronSourceView::CronD(name@),
        }
    }
}

impl DeepView for CronSource {
    type V = CronSourceView;

    open spec fn deep_view(&self) -> CronSourceView {
        self@
    }
}

/// A cron job: who runs what, when, described in words.
#[derive(Debug, Clone, PartialEq, Eq)]
pub struct CronJob {
    pub user: String,
    pub schedule: String,
    pub command: String,
    pub description: String,
    pub source: CronSource,
}

/// The mathematical value of a [`CronJob`].
pub struct CronJobView {
    pub user: Seq<char>,
    pub schedule: Seq<char>,
    pub command: Seq<char>,
    pub description: Seq<char>,
    pub source: CronSourceView,
}

impl View for CronJob {
    type V = CronJobView;

    open spec fn view(&self) -> CronJobView {
        CronJobView {
            user: self.user@,
            schedule: self.schedule@,
            command: self.command@,
            description: self.description@,
            source: self.source@,
        }
    }
}

impl DeepView for CronJob {
    type V = CronJobView;

    open spec fn deep_view(&self) -> CronJobView {
        self@
    }
}

/// The label under which a source is shown: `crontab`, `/etc/crontab`
/// or `/etc/cron.d/<name>`.
pub open spec fn source_label_spec(s: CronSourceView) -> Seq<char> {
    match s {
        CronSourceView::UserCrontab => "crontab"@,
        CronSourceView::SystemCrontab => "/etc/crontab"@,
        CronSourceView::CronD(name) => "/etc/cron.d/"@ + name,
    }
}

impl CronSource {
    /// A copy of this source.
    pub fn duplicate(&self) -> (r: CronSource)
        ensures
            r@ == self@,
    {
        match self {
            CronSource::UserCrontab => CronSource::UserCrontab,
            CronSource::SystemCrontab => CronSource::SystemCrontab,
            CronSource::CronD(name) => CronSource::CronD(name.clone()),
        }
    }

    /// The text this source is shown as.
    pub fn label(&self) -> (r: String)
        ensures
            r@ == source_label_spec(self@),
    {
        match self {
            CronSource::UserCrontab => String::from_str("crontab"),
            CronSource::SystemCrontab => String::from_str("/etc/crontab"),
            CronSource::CronD(name) => {
                let mut r = String::from_str("/etc/cron.d/");
                r.append(name.as_str());
                r
            },
        }
    }
}

/// The English name of a month, by number or three-letter abbreviation.
pub open spec fn month_name_spec(m: Seq<char>) -> Option<Seq<char>> {
    if m == "1"@ || m == "jan"@ || m == "JAN"@ {
        Some("January"@)
    } else if m == "2"@ || m == "feb"@ || m == "FEB"@ {
        Some("February"@)
    } else if m == "3"@ || m == "mar"@ || m == "MAR"@ {
        Some("March"@)
    } else if m == "4"@ || m == "apr"@ || m == "APR"@ {
        Some("April"@)
    } else if m == "5"@ || m == "may"@ || m == "MAY"@ {
        Some("May"@)
    } else if m == "6"@ || m == "jun"@ || m == "JUN"@ {
        Some("June"@)
    } else if m == "7"@ || m == "jul"@ || m == "JUL"@ {
        Some("July"@)
    } else if m == "8"@ || m == "aug"@ || m == "AUG"@ {
        Some("August"@)
    } else if m == "9"@ || m == "sep"@ || m == "SEP"@ {
        Some("September"@)
    } else if m == "10"@ || m == "oct"@ || m == "OCT"@ {
        Some("October"@)
    } else if m == "11"@ || m == "nov"@ || m == "NOV"@ {
        Some("November"@)
    } else if m == "12"@ || m == "dec"@ || m == "DEC"@ {
        Some("December"@)
    } else {
        None
    }
}

fn is_one_of(m: &str, a: &str, b: &str, c: &str) -> (r: bool)
    ensures
        r == (m@ == a@ || m@ == b@ || m@ == c@),
{
    str_eq(m, a) || str_eq(m, b) || str_eq(m, c)
}

/// The English name of a month field value.
pub fn month_name(m: &str) -> (r: Option<String>)
    ensures
        r.deep_view() == month_name_spec(m@),
{
    if is_one_of(m, "1", "jan", "JAN") {
        Some(String::from_str("January"))
    } else if is_one_of(m, "2", "feb", "FEB") {
        Some(String::from_str("February"))
    } else if is_one_of(m, "3", "mar", "MAR") {
        Some(String::from_str("March"))
    } else if is_one_of(m, "4", "apr", "APR") {
        Some(String::from_str("April"))
    } else if is_one_of(m, "5", "may", "MAY") {
        Some(String::from_str("May"))
    } else if is_one_of(m, "6", "jun", "JUN") {
        Some(String::from_str("June"))
    } else if is_one_of(m, "7", "jul", "JUL") {
        Some(String::from_str("July"))
    } else if is_one_of(m, "8", "aug", "AUG") {
        Some(String::from_str("August"))
    } else if is_one_of(m, "9", "sep", "SEP") {
        Some(String::from_str("September"))
    } else if is_one_of(m, "10", "oct", "OCT") {
        Some(String::from_str("October"))
    } else if is_one_of(m, "11", "nov", "NOV") {
        Some(String::from_str("November"))
    } else if is_one_of(m, "12", "dec", "DEC") {
        Some(String::from_str("December"))
    } else {
        None
    }
}

/// The English name of a day-of-week field value (0 and 7 are Sunday).
pub open spec fn dow_name_spec(d: Seq<char>) -> Option<Seq<char>> {
    if d == "0"@ || d == "7"@ || d == "sun"@ || d == "SUN"@ {
        Some("Sunday"@)
    } else if d == "1"@ || d == "mon"@ || d == "MON"@ {
        Some("Monday"@)
    } else if d == "2"@ || d == "tue"@ || d == "TUE"@ {
        Some("Tuesday"@)
    } else if d == "3"@ || d == "wed"@ || d == "WED"@ {
        Some("Wednesday"@)
    } else if d == "4"@ || d == "thu"@ || d == "THU"@ {
        Some("Thursday"@)
    } else if d == "5"@ || d == "fri"@ || d == "FRI"@ {
        Some("Friday"@)
    } else if d == "6"@ || d == "sat"@ || d == "SAT"@ {
        Some("Saturday"@)
    } else {
        None
    }
}

/// The English name of a day-of-week field value.
pub fn dow_name(d: &str) -> (r: Option<String>)
    ensures
        r.deep_view() == dow_name_spec(d@),
{
    if str_eq(d, "0") || is_one_of(d, "7", "sun", "SUN") {
        Some(String::from_str("Sunday"))
    } else if is_one_of(d, "1", "mon", "MON") {
        Some(String::from_str("Monday"))
    } else if is_one_of(d, "2", "tue", "TUE") {
        Some(String::from_str("Tuesday"))
    } else if is_one_of(d, "3", "wed", "WED") {
        Some(String::from_str("Wednesday"))
    } else if is_one_of(d, "4", "thu", "THU") {
        Some(String::from_str("Thursday"))
    } else if is_one_of(d, "5", "fri", "FRI") {
        Some(String::from_str("Friday"))
    } else if is_one_of(d, "6", "sat", "SAT") {
        Some(String::from_str("Saturday"))
    } else {
        None
    }
}

/// A month value's name, or the value itself when it names no month.
pub open spec fn month_or_self(p: Seq<char>) -> Seq<char> {
    match month_name_spec(p) {
        Some(n) => n,
        None => p,
    }
}

/// A day-of-week value's name, or the value itself when it names no day.
pub open spec fn dow_or_self(p: Seq<char>) -> Seq<char> {
    match dow_name_spec(p) {
        Some(n) => n,
        None => p,
    }
}

/// A comma-separated month list with each value named where it can be.
pub open spec fn explain_months_spec(m: Seq<char>) -> Seq<char> {
    join(split_char(m, ',').map_values(|p: Seq<char>| month_or_self(p)), ", "@)
}

/// A comma-separated day-of-week list with each value named where it can be.
pub open spec fn explain_dows_spec(d: Seq<char>) -> Seq<char> {
    join(split_char(d, ',').map_values(|p: Seq<char>| dow_or_self(p)), ", "@)
}

fn month_or_self_exec(p: &str) -> (r: String)
    ensures
        r@ == month_or_self(p@),
{
    match month_name(p) {
        Some(n) => n,
        None => String::from_str(p),
    }
}

fn dow_or_self_exec(p: &str) -> (r: String)
    ensures
        r@ == dow_or_self(p@),
{
    match dow_name(p) {
        Some(n) => n,
        None => String::from_str(p),
    }
}

/// Names each value of a comma-separated month list.
pub fn explain_months(m: &str) -> (r: String)
    ensures
        r@ == explain_months_spec(m@),
{
    let parts = split_on_char(m, ',');
    let ghost pv = parts.deep_view();
    let mut names: Vec<String> = Vec::new();
    let mut i: usize = 0;
    while i < parts.len()
        invariant
            pv == parts.deep_view(),
            pv == split_char(m@, ','),
            i <= parts@.len(),
            names.deep_view() =~= pv.take(i as int).map_values(|p: Seq<char>| month_or_self(p)),
        decreases parts@.len() - i,
    {
        let ghost old_names = names.deep_view();
        names.push(month_or_self_exec(parts[i]));
        assert(names.deep_view() =~= old_names.push(month_or_self(pv[i as int])));
        assert(pv.take(i + 1).map_values(|p: Seq<char>| month_or_self(p)) =~= pv.take(
            i as int,
        ).map_values(|p: Seq<char>| month_or_self(p)).push(month_or_self(pv[i as int])));
        i = i + 1;
    }
    assert(pv.take(i as int) =~= pv);
    join_strings(&names, ", ")
}

/// Names each value of a comma-separated day-of-week list.
fn explain_dows(d: &str) -> (r: String)
    ensures
        r@ == explain_dows_spec(d@),
{
    let parts = split_on_char(d, ',');
    let ghost pv = parts.deep_view();
    let mut names: Vec<String> = Vec::new();
    let mut i: usize = 0;
    while i < parts.len()
        invariant
            pv == parts.deep_view(),
            pv == split_char(d@, ','),
            i <= parts@.len(),
            names.deep_view() =~= pv.take(i as int).map_values(|p: Seq<char>| dow_or_self(p)),
        decreases parts@.len() - i,
    {
        let ghost old_names = names.deep_view();
        names.push(dow_or_self_exec(parts[i]));
        assert(names.deep_view() =~= old_names.push(dow_or_self(pv[i as int])));
        assert(pv.take(i + 1).map_values(|p: Seq<char>| dow_or_self(p)) =~= pv.take(
            i as int,
        ).map_values(|p: Seq<char>| dow_or_self(p)).push(dow_or_self(pv[i as int])));
        i = i + 1;
    }
    assert(pv.take(i as int) =~= pv);
    join_strings(&names, ", ")
}


/// What a minute field contributes to a description.
pub open spec fn minute_desc(mi: Seq<char>) -> Seq<Seq<char>> {
    if mi == "*"@ {
        Seq::empty()
    } else if starts_with(mi, "*/"@) {
        seq!["every "@ + mi.skip(2) + " minutes"@]
    } else {
        seq!["at minute "@ + mi]
    }
}

/// What the minute and hour fields contribute to a description.  A numeric
/// hour with a numeric minute reads as a clock time `at HH:MM`.
pub open spec fn time_desc(mi: Seq<char>, h: Seq<char>) -> Seq<Seq<char>> {
    let d0 = minute_desc(mi);
    if h == "*"@ {
        if !starts_with(mi, "*/"@) && mi != "*"@ {
            d0.push("every hour"@)
        } else {
            d0
        }
    } else if starts_with(h, "*/"@) {
        d0.push("every "@ + h.skip(2) + " hours"@)
    } else {
        match parse_u32(h) {
            None => d0.push("at hour "@ + h),
            Some(hn) => if mi == "*"@ {
                d0.push("during hour "@ + h)
            } else if starts_with(mi, "*/"@) {
                d0.push("at hour "@ + h)
            } else {
                match parse_u32(mi) {
                    Some(mn) => seq!["at "@ + pad2(hn as nat) + ":"@ + pad2(mn as nat)],
                    None => d0.push("at hour "@ + h),
                }
            },
        }
    }
}

/// What a day-of-month field contributes to a description.
pub open spec fn dom_desc(dom: Seq<char>) -> Seq<Seq<char>> {
    if dom == "*"@ {
        Seq::empty()
    } else if starts_with(dom, "*/"@) {
        seq!["every "@ + dom.skip(2) + " days"@]
    } else if dom.contains(',') {
        seq!["on days "@ + dom]
    } else {
        seq!["on day "@ + dom]
    }
}

/// What a month field contributes to a description.
pub open spec fn month_desc(mo: Seq<char>) -> Seq<Seq<char>> {
    if mo == "*"@ {
        Seq::empty()
    } else if mo.contains(',') {
        seq!["in months "@ + explain_months_spec(mo)]
    } else {
        match month_name_spec(mo) {
            Some(n) => seq!["in "@ + n],
            None => seq!["in month "@ + mo],
        }
    }
}

/// What a day-of-week field contributes to a description.  A range that
/// does not have exactly two ends contributes nothing.
pub open spec fn dow_desc(d: Seq<char>) -> Seq<Seq<char>> {
    if d == "*"@ {
        Seq::empty()
    } else if d.contains(',') {
        seq!["on "@ + explain_dows_spec(d)]
    } else if d.contains('-') {
        let r = split_char(d, '-');
        if r.len() == 2 {
            seq!["on "@ + dow_or_self(r[0]) + " through "@ + dow_or_self(r[1])]
        } else {
            Seq::empty()
        }
    } else {
        match dow_name_spec(d) {
            Some(n) => seq!["on "@ + n],
            None => seq!["on weekday "@ + d],
        }
    }
}

/// The fixed phrases for the most common schedules.
pub open spec fn common_pattern(w: Seq<Seq<char>>) -> Option<Seq<char>> {
    if w[0] == "*"@ && w[1] == "*"@ && w[2] == "*"@ && w[3] == "*"@ && w[4] == "*"@ {
        Some("every minute"@)
    } else if w[0] == "0"@ && w[1] == "*"@ && w[2] == "*"@ && w[3] == "*"@ && w[4] == "*"@ {
        Some("every hour"@)
    } else if w[0] == "0"@ && w[1] == "0"@ && w[2] == "*"@ && w[3] == "*"@ && w[4] == "*"@ {
        Some("daily at midnight"@)
    } else if w[0] == "0"@ && w[1] == "0"@ && w[2] == "1"@ && w[3] == "*"@ && w[4] == "*"@ {
        Some("monthly on the 1st at midnight"@)
    } else if w[0] == "0"@ && w[1] == "0"@ && w[2] == "1"@ && w[3] == "1"@ && w[4] == "*"@ {
        Some("yearly on Jan 1st at midnight"@)
    } else if w[0] == "0"@ && w[1] == "0"@ && w[2] == "*"@ && w[3] == "*"@ && w[4] == "0"@ {
        Some("weekly on Sunday at midnight"@)
    } else if w[0] == "0"@ && w[1] == "0"@ && w[2] == "*"@ && w[3] == "*"@ && w[4] == "1"@ {
        Some("weekly on Monday at midnight"@)
    } else {
        None
    }
}

/// The plain-English description of a cron schedule.
pub open spec fn explain_spec(s: Seq<char>) -> Seq<char> {
    let w = words(s);
    if w.len() != 5 {
        "invalid cron expression"@
    } else {
        match common_pattern(w) {
            Some(p) => p,
            None => {
                let d = time_desc(w[0], w[1]) + dom_desc(w[2]) + month_desc(w[3]) + dow_desc(
                    w[4],
                );
                if d.len() == 0 {
                    "every minute"@
                } else {
                    join(d, ", "@)
                }
            },
        }
    }
}

/// The characters of `s` after its first two.
fn after_two(s: &str) -> (r: &str)
    requires
        starts_with(s@, "*/"@),
    ensures
        r@ == s@.skip(2),
{
    proof {
        reveal_strlit("*/");
    }
    s.substring_char(2, s.unicode_len())
}

/// `prefix + middle + suffix` as a new string.
fn phrase(prefix: &str, middle: &str, suffix: &str) -> (r: String)
    ensures
        r@ == prefix@ + middle@ + suffix@,
{
    let mut r = String::from_str(prefix);
    r.append(middle);
    r.append(suffix);
    r
}

fn push_string(v: &mut Vec<String>, s: String)
    ensures
        final(v).deep_view() == old(v).deep_view().push(s@),
{
    let ghost old_dv = v.deep_view();
    v.push(s);
    assert(v.deep_view() =~= old_dv.push(s@));
}

fn minute_descs(mi: &str) -> (v: Vec<String>)
    ensures
        v.deep_view() == minute_desc(mi@),
{
    let mut v: Vec<String> = Vec::new();
    if str_eq(mi, "*") {
    } else if str_starts_with(mi, "*/") {
        push_string(&mut v, phrase("every ", after_two(mi), " minutes"));
    } else {
        push_string(&mut v, phrase("at minute ", mi, ""));
        proof {
            reveal_strlit("");
        }
        assert("at minute "@ + mi@ + ""@ =~= "at minute "@ + mi@);
    }
    assert(v.deep_view() =~= minute_desc(mi@));
    v
}

fn time_descs(mi: &str, h: &str) -> (v: Vec<String>)
    ensures
        v.deep_view() == time_desc(mi@, h@),
{
    proof {
        reveal_strlit("");
    }
    let mut v = minute_descs(mi);
    if str_eq(h, "*") {
        if !str_starts_with(mi, "*/") && !str_eq(mi, "*") {
            push_string(&mut v, String::from_str("every hour"));
        }
    } else if str_starts_with(h, "*/") {
        push_string(&mut v, phrase("every ", after_two(h), " hours"));
    } else {
        let at_hour = phrase("at hour ", h, "");
        assert("at hour "@ + h@ + ""@ =~= "at hour "@ + h@);
        match parse_u32_str(h) {
            None => push_string(&mut v, at_hour),
            Some(hn) => {
                if str_eq(mi, "*") {
                    let during = phrase("during hour ", h, "");
                    assert("during hour "@ + h@ + ""@ =~= "during hour "@ + h@);
                    push_string(&mut v, during);
                } else if str_starts_with(mi, "*/") {
                    push_string(&mut v, at_hour);
                } else {
                    match parse_u32_str(mi) {
                        Some(mn) => {
                            let mut t = String::from_str("at ");
                            push_pad2(&mut t, hn as u64);
                            t.append(":");
                            push_pad2(&mut t, mn as u64);
                            let mut w: Vec<String> = Vec::new();
                            push_string(&mut w, t);
                            assert(w.deep_view() =~= time_desc(mi@, h@));
                            return w;
                        },
                        None => push_string(&mut v, at_hour),
                    }
                }
            },
        }
    }
    v
}

fn dom_descs(dom: &str) -> (v: Vec<String>)
    ensures
        v.deep_view() == dom_desc(dom@),
{
    proof {
        reveal_strlit("");
    }
    let mut v: Vec<String> = Vec::new();
    if str_eq(dom, "*") {
    } else if str_starts_with(dom, "*/") {
        push_string(&mut v, phrase("every ", after_two(dom), " days"));
    } else if str_contains_char(dom, ',') {
        push_string(&mut v, phrase("on days ", dom, ""));
        assert("on days "@ + dom@ + ""@ =~= "on days "@ + dom@);
    } else {
        push_string(&mut v, phrase("on day ", dom, ""));
        assert("on day "@ + dom@ + ""@ =~= "on day "@ + dom@);
    }
    assert(v.deep_view() =~= dom_desc(dom@));
    v
}

fn month_descs(mo: &str) -> (v: Vec<String>)
    ensures
        v.deep_view() == month_desc(mo@),
{
    proof {
        reveal_strlit("");
    }
    let mut v: Vec<String> = Vec::new();
    if str_eq(mo, "*") {
    } else if str_contains_char(mo, ',') {
        let names = explain_months(mo);
        push_string(&mut v, phrase("in months ", names.as_str(), ""));
        assert("in months "@ + names@ + ""@ =~= "in months "@ + names@);
    } else {
        match month_name(mo) {
            Some(n) => {
                push_string(&mut v, phrase("in ", n.as_str(), ""));
                assert("in "@ + n@ + ""@ =~= "in "@ + n@);
            },
            None => {
                push_string(&mut v, phrase("in month ", mo, ""));
                assert("in month "@ + mo@ + ""@ =~= "in month "@ + mo@);
            },
        }
    }
    assert(v.deep_view() =~= month_desc(mo@));
    v
}

fn dow_descs(d: &str) -> (v: Vec<String>)
    ensures
        v.deep_view() == dow_desc(d@),
{
    proof {
        reveal_strlit("");
    }
    let mut v: Vec<String> = Vec::new();
    if str_eq(d, "*") {
    } else if str_contains_char(d, ',') {
        let names = explain_dows(d);
        push_string(&mut v, phrase("on ", names.as_str(), ""));
        assert("on "@ + names@ + ""@ =~= "on "@ + names@);
    } else if str_contains_char(d, '-') {
        let r = split_on_char(d, '-');
        assert(r.deep_view().len() == r@.len());
        if r.len() == 2 {
            let start = dow_or_self_exec(r[0]);
            let end = dow_or_self_exec(r[1]);
            let mut t = phrase("on ", start.as_str(), " through ");
            t.append(end.as_str());
            push_string(&mut v, t);
        }
    } else {
        match dow_name(d) {
            Some(n) => {
                push_string(&mut v, phrase("on ", n.as_str(), ""));
                assert("on "@ + n@ + ""@ =~= "on "@ + n@);
            },
            None => {
                push_string(&mut v, phrase("on weekday ", d, ""));
                assert("on weekday "@ + d@ + ""@ =~= "on weekday "@ + d@);
            },
        }
    }
    assert(v.deep_view() =~= dow_desc(d@));
    v
}

fn fields_are(w: &Vec<&str>, a: &str, b: &str, c: &str, d: &str, e: &str) -> (r: bool)
    requires
        w@.len() == 5,
    ensures
        r == (w.deep_view()[0] == a@ && w.deep_view()[1] == b@ && w.deep_view()[2] == c@
            && w.deep_view()[3] == d@ && w.deep_view()[4] == e@),
{
    str_eq(w[0], a) && str_eq(w[1], b) && str_eq(w[2], c) && str_eq(w[3], d) && str_eq(w[4], e)
}

/// Explains a cron schedule in plain English.
pub fn explain_schedule(schedule: &str) -> (r: String)
    ensures
        r@ == explain_spec(schedule@),
{
    let w = split_whitespace(schedule);
    let ghost wv = w.deep_view();
    assert(wv.len() == w@.len());
    if w.len() != 5 {
        return String::from_str("invalid cron expression");
    }
    if fields_are(&w, "*", "*", "*", "*", "*") {
        return String::from_str("every minute");
    }
    if fields_are(&w, "0", "*", "*", "*", "*") {
        return String::from_str("every hour");
    }
    if fields_are(&w, "0", "0", "*", "*", "*") {
        return String::from_str("daily at midnight");
    }
    if fields_are(&w, "0", "0", "1", "*", "*") {
        return String::from_str("monthly on the 1st at midnight");
    }
    if fields_are(&w, "0", "0", "1", "1", "*") {
        return String::from_str("yearly on Jan 1st at midnight");
    }
    if fields_are(&w, "0", "0", "*", "*", "0") {
        return String::from_str("weekly on Sunday at midnight");
    }
    if fields_are(&w, "0", "0", "*", "*", "1") {
        return String::from_str("weekly on Monday at midnight");
    }
    assert(common_pattern(wv) is None);
    let mut d = time_descs(w[0], w[1]);
    let mut d2 = dom_descs(w[2]);
    let mut d3 = month_descs(w[3]);
    let mut d4 = dow_descs(w[4]);
    let ghost (g1, g2, g3, g4) = (d.deep_view(), d2.deep_view(), d3.deep_view(), d4.deep_view());
    d.append(&mut d2);
    d.append(&mut d3);
    d.append(&mut d4);
    assert(d.deep_view() =~= g1 + g2 + g3 + g4);
    if d.len() == 0 {
        String::from_str("every minute")
    } else {
        join_strings(&d, ", ")
    }
}


/// A line that holds no job: blank, a comment, or an environment setting
/// (its first field is `NAME=value`).
pub open spec fn is_skipped_line(t: Seq<char>) -> bool {
    t.len() == 0 || t[0] == '#' || first_word(t).contains('=')
}

/// The job that a user crontab line defines, if any: five schedule fields
/// and a command, separated by runs of whitespace.
pub open spec fn crontab_line_spec(
    line: Seq<char>,
    user: Seq<char>,
    source: CronSourceView,
) -> Option<CronJobView> {
    let t = trim(line);
    if is_skipped_line(t) {
        None
    } else {
        let p = fields_ws(t, 6);
        if p.len() < 6 {
            None
        } else {
            let schedule = join(p.take(5), " "@);
            Some(
                CronJobView {
                    user,
                    schedule,
                    command: trim(p[5]),
                    description: explain_spec(schedule),
                    source,
                },
            )
        }
    }
}

/// The job that a system crontab line defines, if any: five schedule
/// fields, a user and a command.
pub open spec fn system_line_spec(line: Seq<char>, source: CronSourceView) -> Option<
    CronJobView,
> {
    let t = trim(line);
    if is_skipped_line(t) {
        None
    } else {
        let p = fields_ws(t, 7);
        if p.len() < 7 {
            None
        } else {
            let schedule = join(p.take(5), " "@);
            Some(
                CronJobView {
                    user: p[5],
                    schedule,
                    command: trim(p[6]),
                    description: explain_spec(schedule),
                    source,
                },
            )
        }
    }
}

fn is_skipped(t: &str) -> (r: bool)
    ensures
        r == is_skipped_line(t@),
{
    t.unicode_len() == 0 || t.get_char(0) == '#' || str_contains_char(first_word_str(t), '=')
}

/// The first five pieces joined by single spaces.
fn schedule_of(p: &Vec<&str>) -> (r: String)
    requires
        p@.len() >= 5,
    ensures
        r@ == join(p.deep_view().take(5), " "@),
{
    let mut v: Vec<String> = Vec::new();
    let mut i: usize = 0;
    while i < 5
        invariant
            p@.len() >= 5,
            i <= 5,
            v.deep_view() =~= p.deep_view().take(i as int),
        decreases 5 - i,
    {
        push_string(&mut v, String::from_str(p[i]));
        i = i + 1;
    }
    join_strings(&v, " ")
}

/// Parses a user crontab line into a job, skipping comments, environment
/// settings and blank or short lines.
pub fn parse_crontab_line(line: &str, user: &str, source: CronSource) -> (r: Option<CronJob>)
    ensures
        r.deep_view() == crontab_line_spec(line@, user@, source@),
{
    let t = trim_str(line);
    if is_skipped(t) {
        return None;
    }
    let p = split_fields(t, 6);
    assert(p.deep_view().len() == p@.len());
    if p.len() < 6 {
        return None;
    }
    let schedule = schedule_of(&p);
    let command = String::from_str(trim_str(p[5]));
    let description = explain_schedule(schedule.as_str());
    Some(CronJob { user: String::from_str(user), schedule, command, description, source })
}

/// Parses a system crontab line (with a user field between schedule and
/// command) into a job.
pub fn parse_system_crontab_line(line: &str, source: CronSource) -> (r: Option<CronJob>)
    ensures
        r.deep_view() == system_line_spec(line@, source@),
{
    let t = trim_str(line);
    if is_skipped(t) {
        return None;
    }
    let p = split_fields(t, 7);
    assert(p.deep_view().len() == p@.len());
    if p.len() < 7 {
        return None;
    }
    let schedule = schedule_of(&p);
    let user = String::from_str(p[5]);
    let command = String::from_str(trim_str(p[6]));
    let description = explain_schedule(schedule.as_str());
    Some(CronJob { user, schedule, command, description, source })
}

/// The jobs of a user crontab, line by line.
pub open spec fn crontab_jobs_spec(ls: Seq<Seq<char>>, user: Seq<char>) -> Seq<CronJobView>
    decreases ls.len(),
{
    if ls.len() == 0 {
        Seq::empty()
    } else {
        let rest = crontab_jobs_spec(ls.drop_last(), user);
        match crontab_line_spec(ls.last(), user, CronSourceView::UserCrontab) {
            Some(j) => rest.push(j),
            None => rest,
        }
    }
}

/// The jobs of a system crontab file (`/etc/crontab` or a file in
/// `/etc/cron.d`), line by line.
pub open spec fn system_jobs_spec(ls: Seq<Seq<char>>, source: CronSourceView) -> Seq<
    CronJobView,
>
    decreases ls.len(),
{
    if ls.len() == 0 {
        Seq::empty()
    } else {
        let rest = system_jobs_spec(ls.drop_last(), source);
        match system_line_spec(ls.last(), source) {
            Some(j) => rest.push(j),
            None => rest,
        }
    }
}

/// The jobs that the text of a user crontab defines, owned by `user`.
pub fn parse_user_crontab(content: &str, user: &str) -> (jobs: Vec<CronJob>)
    ensures
        jobs.deep_view() == crontab_jobs_spec(lines(content@), user@),
{
    let ls = split_lines(content);
    let ghost lv = ls.deep_view();
    let mut jobs: Vec<CronJob> = Vec::new();
    let mut i: usize = 0;
    while i < ls.len()
        invariant
            lv == ls.deep_view(),
            lv == lines(content@),
            i <= ls@.len(),
            jobs.deep_view() =~= crontab_jobs_spec(lv.take(i as int), user@),
        decreases ls@.len() - i,
    {
        assert(lv.take(i + 1).drop_last() =~= lv.take(i as int));
        let ghost old_dv = jobs.deep_view();
        if let Some(j) = parse_crontab_line(ls[i], user, CronSource::UserCrontab) {
            jobs.push(j);
            assert(jobs.deep_view() =~= old_dv.push(j@));
        }
        i = i + 1;
    }
    assert(lv.take(i as int) =~= lv);
    jobs
}

/// The jobs that the text of a system crontab file defines.
pub fn parse_system_crontab(content: &str, source: &CronSource) -> (jobs: Vec<CronJob>)
    ensures
        jobs.deep_view() == system_jobs_spec(lines(content@), source@),
{
    let ls = split_lines(content);
    let ghost lv = ls.deep_view();
    let mut jobs: Vec<CronJob> = Vec::new();
    let mut i: usize = 0;
    while i < ls.len()
        invariant
            lv == ls.deep_view(),
            lv == lines(content@),
            i <= ls@.len(),
            jobs.deep_view() =~= system_jobs_spec(lv.take(i as int), source@),
        decreases ls@.len() - i,
    {
        assert(lv.take(i + 1).drop_last() =~= lv.take(i as int));
        let ghost old_dv = jobs.deep_view();
        if let Some(j) = parse_system_crontab_line(ls[i], source.duplicate()) {
            jobs.push(j);
            assert(jobs.deep_view() =~= old_dv.push(j@));
        }
        i = i + 1;
    }
    assert(lv.take(i as int) =~= lv);
    jobs
}

/// Whether a file in `/etc/cron.d` is read: dotfiles, backups ending in `~`
/// and package-manager leftovers (`.dpkg-`) are not.
pub open spec fn cron_d_file_wanted(name: Seq<char>) -> bool {
    !((name.len() > 0 && name[0] == '.') || (name.len() > 0 && name.last() == '~')
        || contains_seq(name, ".dpkg-"@))
}

/// Whether a file in `/etc/cron.d` is read.
pub fn is_cron_d_file_wanted(name: &str) -> (r: bool)
    ensures
        r == cron_d_file_wanted(name@),
{
    let n = name.unicode_len();
    !((n > 0 && name.get_char(0) == '.') || (n > 0 && name.get_char(n - 1) == '~')
        || str_contains(name, ".dpkg-"))
}

/// What the output of `crontab -l` comes to: its jobs when the command
/// succeeded, none when the user has no crontab, an error otherwise.
pub open spec fn crontab_listing_spec(
    success: bool,
    stdout: Seq<char>,
    stderr: Seq<char>,
    user: Seq<char>,
) -> Result<Seq<CronJobView>, Seq<char>> {
    if !success {
        if contains_seq(stderr, "no crontab for"@) {
            Ok(Seq::empty())
        } else {
            Err("crontab -l failed: "@ + trim(stderr))
        }
    } else {
        Ok(crontab_jobs_spec(lines(stdout), user))
    }
}

/// Interprets the outcome of `crontab -l` for `user`.
pub fn crontab_listing(success: bool, stdout: &str, stderr: &str, user: &str) -> (r: Result<
    Vec<CronJob>,
    String,
>)
    ensures
        match (r, crontab_listing_spec(success, stdout@, stderr@, user@)) {
            (Ok(jobs), Ok(s)) => jobs.deep_view() == s,
            (Err(e), Err(s)) => e@ == s,
            _ => false,
        },
{
    if !success {
        if str_contains(stderr, "no crontab for") {
            let v: Vec<CronJob> = Vec::new();
            assert(v.deep_view() =~= Seq::<CronJobView>::empty());
            return Ok(v);
        }
        let mut e = String::from_str("crontab -l failed: ");
        e.append(trim_str(stderr));
        return Err(e);
    }
    Ok(parse_user_crontab(stdout, user))
}


/// A description depends only on the whitespace-separated fields of the
/// schedule, not on the spacing between them.
pub proof fn lemma_explain_ignores_spacing(a: Seq<char>, b: Seq<char>)
    requires
        words(a) == words(b),
    ensures
        explain_spec(a) == explain_spec(b),
{
}

/// A phrase that cannot be read as the invalid-expression text: three
/// characters at least, and not `i`, any, `v` at its start.
pub open spec fn distinct_phrase(p: Seq<char>) -> bool {
    p.len() >= 3 && (p[0] != 'i' || p[2] != 'v')
}

proof fn lemma_literal_phrase(lit: Seq<char>, x: Seq<char>)
    requires
        distinct_phrase(lit),
    ensures
        distinct_phrase(lit + x),
{
    assert((lit + x)[0] == lit[0]);
    assert((lit + x)[2] == lit[2]);
}

proof fn lemma_join_phrase(d: Seq<Seq<char>>, sep: Seq<char>)
    requires
        d.len() > 0,
        distinct_phrase(d[0]),
    ensures
        distinct_phrase(join(d, sep)),
        join(d, sep)[0] == d[0][0],
        join(d, sep)[2] == d[0][2],
    decreases d.len(),
{
    if d.len() > 1 {
        lemma_join_phrase(d.drop_last(), sep);
        let j = join(d.drop_last(), sep);
        assert(join(d, sep) == j + sep + d.last());
        assert((j + sep + d.last())[0] == j[0]);
        assert((j + sep + d.last())[2] == j[2]);
    }
}

proof fn lemma_desc_phrases(w: Seq<Seq<char>>)
    requires
        w.len() == 5,
    ensures
        forall|i: int|
            0 <= i < (time_desc(w[0], w[1]) + dom_desc(w[2]) + month_desc(w[3]) + dow_desc(w[4])).len()
                ==> distinct_phrase(
                #[trigger] (time_desc(w[0], w[1]) + dom_desc(w[2]) + month_desc(w[3]) + dow_desc(
                    w[4],
                ))[i],
            ),
{
    reveal_strlit("every ");
    reveal_strlit("at minute ");
    reveal_strlit("every hour");
    reveal_strlit("at hour ");
    reveal_strlit("during hour ");
    reveal_strlit("at ");
    reveal_strlit("on days ");
    reveal_strlit("on day ");
    reveal_strlit("in months ");
    reveal_strlit("in ");
    reveal_strlit("in month ");
    reveal_strlit("on ");
    reveal_strlit("on weekday ");
    let (mi, h) = (w[0], w[1]);
    let d0 = minute_desc(mi);
    assert forall|i: int| 0 <= i < d0.len() implies distinct_phrase(#[trigger] d0[i]) by {
        if starts_with(mi, "*/"@) {
            lemma_literal_phrase("every "@, mi.skip(2) + " minutes"@);
            assert("every "@ + mi.skip(2) + " minutes"@ == "every "@ + (mi.skip(2) + " minutes"@));
        } else {
            lemma_literal_phrase("at minute "@, mi);
        }
    }
    let t = time_desc(mi, h);
    assert forall|i: int| 0 <= i < t.len() implies distinct_phrase(#[trigger] t[i]) by {
        if h == "*"@ {
            if !starts_with(mi, "*/"@) && mi != "*"@ {
                if i == d0.len() {
                    assert(t[i] == "every hour"@);
                } else {
                    assert(t[i] == d0[i]);
                }
            } else {
                assert(t[i] == d0[i]);
            }
        } else if starts_with(h, "*/"@) {
            if i == d0.len() {
                lemma_literal_phrase("every "@, h.skip(2) + " hours"@);
                assert("every "@ + h.skip(2) + " hours"@ == "every "@ + (h.skip(2) + " hours"@));
            } else {
                assert(t[i] == d0[i]);
            }
        } else {
            match parse_u32(h) {
                None => {
                    if i == d0.len() {
                        lemma_literal_phrase("at hour "@, h);
                    } else {
                        assert(t[i] == d0[i]);
                    }
                },
                Some(hn) => {
                    if mi == "*"@ {
                        if i == d0.len() {
                            lemma_literal_phrase("during hour "@, h);
                        } else {
                            assert(t[i] == d0[i]);
                        }
                    } else if starts_with(mi, "*/"@) {
                        if i == d0.len() {
                            lemma_literal_phrase("at hour "@, h);
                        } else {
                            assert(t[i] == d0[i]);
                        }
                    } else {
                        match parse_u32(mi) {
                            Some(mn) => {
                                let x = pad2(hn as nat) + ":"@ + pad2(mn as nat);
                                lemma_literal_phrase("at "@, x);
                                assert("at "@ + pad2(hn as nat) + ":"@ + pad2(mn as nat) == "at "@
                                    + x);
                            },
                            None => {
                                if i == d0.len() {
                                    lemma_literal_phrase("at hour "@, h);
                                } else {
                                    assert(t[i] == d0[i]);
                                }
                            },
                        }
                    }
                },
            }
        }
    }
    let dd = dom_desc(w[2]);
    assert forall|i: int| 0 <= i < dd.len() implies distinct_phrase(#[trigger] dd[i]) by {
        let x = w[2];
        if starts_with(x, "*/"@) {
            lemma_literal_phrase("every "@, x.skip(2) + " days"@);
            assert("every "@ + x.skip(2) + " days"@ == "every "@ + (x.skip(2) + " days"@));
        } else if x.contains(',') {
            lemma_literal_phrase("on days "@, x);
        } else {
            lemma_literal_phrase("on day "@, x);
        }
    }
    let md = month_desc(w[3]);
    assert forall|i: int| 0 <= i < md.len() implies distinct_phrase(#[trigger] md[i]) by {
        let x = w[3];
        if x.contains(',') {
            lemma_literal_phrase("in months "@, explain_months_spec(x));
        } else {
            match month_name_spec(x) {
                Some(n) => lemma_literal_phrase("in "@, n),
                None => lemma_literal_phrase("in month "@, x),
            }
        }
    }
    let wd = dow_desc(w[4]);
    assert forall|i: int| 0 <= i < wd.len() implies distinct_phrase(#[trigger] wd[i]) by {
        let x = w[4];
        if x.contains(',') {
            lemma_literal_phrase("on "@, explain_dows_spec(x));
        } else if x.contains('-') {
            let r = split_char(x, '-');
            let y = dow_or_self(r[0]) + " through "@ + dow_or_self(r[1]);
            lemma_literal_phrase("on "@, y);
            assert("on "@ + dow_or_self(r[0]) + " through "@ + dow_or_self(r[1]) == "on "@ + y);
        } else {
            match dow_name_spec(x) {
                Some(n) => lemma_literal_phrase("on "@, n),
                None => lemma_literal_phrase("on weekday "@, x),
            }
        }
    }
    let all = t + dd + md + wd;
    assert forall|i: int| 0 <= i < all.len() implies distinct_phrase(#[trigger] all[i]) by {
        if i < t.len() {
            assert(all[i] == t[i]);
        } else if i < t.len() + dd.len() {
            assert(all[i] == dd[i - t.len()]);
        } else if i < t.len() + dd.len() + md.len() {
            assert(all[i] == md[i - t.len() - dd.len()]);
        } else {
            assert(all[i] == wd[i - t.len() - dd.len() - md.len()]);
        }
    }
}

/// A schedule is reported as an invalid expression exactly when it does
/// not have five fields, and its description is never empty.
pub proof fn lemma_explain_invalid(s: Seq<char>)
    ensures
        explain_spec(s) == "invalid cron expression"@ <==> words(s).len() != 5,
        explain_spec(s).len() > 0,
{
    reveal_strlit("invalid cron expression");
    reveal_strlit("every minute");
    reveal_strlit("every hour");
    reveal_strlit("daily at midnight");
    reveal_strlit("monthly on the 1st at midnight");
    reveal_strlit("yearly on Jan 1st at midnight");
    reveal_strlit("weekly on Sunday at midnight");
    reveal_strlit("weekly on Monday at midnight");
    let w = words(s);
    if w.len() == 5 {
        let e = explain_spec(s);
        match common_pattern(w) {
            Some(p) => {
                assert(e[0] != 'i');
            },
            None => {
                let d = time_desc(w[0], w[1]) + dom_desc(w[2]) + month_desc(w[3]) + dow_desc(
                    w[4],
                );
                if d.len() > 0 {
                    lemma_desc_phrases(w);
                    assert(distinct_phrase(d[0]));
                    lemma_join_phrase(d, ", "@);
                    assert(distinct_phrase(e));
                }
            },
        }
        assert(e != "invalid cron expression"@) by {
            if e == "invalid cron expression"@ {
                assert(e[0] == 'i' && e[2] == 'v');
            }
        }
    }
}

/// A job read from a crontab line is described by the explanation of its
/// schedule, and keeps the line's owner and source.
pub proof fn lemma_parsed_job_described(line: Seq<char>, user: Seq<char>, source: CronSourceView)
    ensures
        crontab_line_spec(line, user, source) matches Some(j) ==> j.description == explain_spec(
            j.schedule,
        ) && j.user == user && j.source == source,
        system_line_spec(line, source) matches Some(j) ==> j.description == explain_spec(
            j.schedule,
        ) && j.source == source,
{
}

/// The weekday number a day-of-week value stands for: Sunday is both 0
/// and 7.
pub open spec fn weekday_of(d: Seq<char>) -> Option<u32> {
    match dow_value_spec(d) {
        Some(v) => if v == 7 {
            Some(0)
        } else {
            Some(v)
        },
        None => None,
    }
}

proof fn lemma_not_ci_at(s: Seq<char>, w: Seq<char>, k: int)
    requires
        0 <= k < s.len(),
        k < w.len(),
        s[k] != w[k],
        (s[k] as u32) + 32 != (w[k] as u32),
    ensures
        !eq_ignore_case(s, w),
{
}

proof fn lemma_parse_digit(d: Seq<char>, n: u32)
    requires
        d.len() == 1,
        n < 10,
        d[0] as u32 == n + 48,
    ensures
        parse_u32(d) == Some(n),
{
    assert(d.last() == d[0]);
    assert(digits_value(d.drop_last()) == 0);
    assert(digits_value(d) == n);
    assert(unsigned_digits(d) == d);
    assert(all_digits(d));
}

/// The three letters of weekday `k`'s abbreviation (Sunday is 0), in
/// lower case, or with a capital first letter or all in capitals, match
/// no earlier weekday's abbreviation.
proof fn lemma_not_abbrev_before(s: Seq<char>, k: int)
    requires
        1 <= k <= 6,
        s.len() == 3,
        (k == 1 ==> s[0] == 'M' || s[0] == 'm'),
        (k == 2 ==> (s[0] == 'T' || s[0] == 't') && (s[1] == 'u' || s[1] == 'U')),
        (k == 3 ==> s[0] == 'W' || s[0] == 'w'),
        (k == 4 ==> (s[0] == 'T' || s[0] == 't') && (s[1] == 'h' || s[1] == 'H')),
        (k == 5 ==> s[0] == 'F' || s[0] == 'f'),
        (k == 6 ==> (s[0] == 'S' || s[0] == 's') && (s[1] == 'a' || s[1] == 'A')),
    ensures
        k > 0 ==> !eq_ignore_case(s, "sun"@),
        k > 1 ==> !eq_ignore_case(s, "mon"@),
        k > 2 ==> !eq_ignore_case(s, "tue"@),
        k > 3 ==> !eq_ignore_case(s, "wed"@),
        k > 4 ==> !eq_ignore_case(s, "thu"@),
        k > 5 ==> !eq_ignore_case(s, "fri"@),
{
    reveal_strlit("sun");
    reveal_strlit("mon");
    reveal_strlit("tue");
    reveal_strlit("wed");
    reveal_strlit("thu");
    reveal_strlit("fri");
    if k == 6 {
        lemma_not_ci_at(s, "sun"@, 1);
    } else {
        lemma_not_ci_at(s, "sun"@, 0);
    }
    if k > 1 {
        lemma_not_ci_at(s, "mon"@, 0);
    }
    if k > 2 {
        if k == 4 {
            lemma_not_ci_at(s, "tue"@, 1);
        } else {
            lemma_not_ci_at(s, "tue"@, 0);
        }
    }
    if k > 3 {
        lemma_not_ci_at(s, "wed"@, 0);
    }
    if k > 4 {
        lemma_not_ci_at(s, "thu"@, 0);
    }
    if k > 5 {
        lemma_not_ci_at(s, "fri"@, 0);
    }
}

/// Each day-of-week value is named as the weekday it stands for: the
/// name's first three letters read, ignoring case, as the abbreviation of
/// the same weekday (so 2 and `tue` are Tuesday, 4 and `thu` Thursday, 0,
/// 7 and `sun` Sunday); and every number from 0 to 7 has a name.
pub proof fn lemma_dow_names(d: Seq<char>)
    ensures
        match dow_name_spec(d) {
            Some(name) => name.len() >= 3 && weekday_of(d) is Some && weekday_of(name.take(3))
                == weekday_of(d),
            None => true,
        },
        forall|v: u32| v <= 7 ==> (#[trigger] dow_name_spec(decimal(v as nat))) is Some,
{
    reveal_strlit("0");
    reveal_strlit("1");
    reveal_strlit("2");
    reveal_strlit("3");
    reveal_strlit("4");
    reveal_strlit("5");
    reveal_strlit("6");
    reveal_strlit("7");
    reveal_strlit("sun");
    reveal_strlit("mon");
    reveal_strlit("tue");
    reveal_strlit("wed");
    reveal_strlit("thu");
    reveal_strlit("fri");
    reveal_strlit("sat");
    reveal_strlit("SUN");
    reveal_strlit("MON");
    reveal_strlit("TUE");
    reveal_strlit("WED");
    reveal_strlit("THU");
    reveal_strlit("FRI");
    reveal_strlit("SAT");
    reveal_strlit("Sunday");
    reveal_strlit("Monday");
    reveal_strlit("Tuesday");
    reveal_strlit("Wednesday");
    reveal_strlit("Thursday");
    reveal_strlit("Friday");
    reveal_strlit("Saturday");
    assert forall|v: u32| v <= 7 implies (#[trigger] dow_name_spec(decimal(v as nat))) is Some by {
        let t = decimal(v as nat);
        assert(t =~= seq![digit_char(v as nat)]);
        if v == 0 {
            assert(t =~= "0"@);
        } else if v == 1 {
            assert(t =~= "1"@);
        } else if v == 2 {
            assert(t =~= "2"@);
        } else if v == 3 {
            assert(t =~= "3"@);
        } else if v == 4 {
            assert(t =~= "4"@);
        } else if v == 5 {
            assert(t =~= "5"@);
        } else if v == 6 {
            assert(t =~= "6"@);
        } else {
            assert(t =~= "7"@);
        }
    }
    if d.len() == 1 && 48 <= (d[0] as u32) <= 55 {
        let n = ((d[0] as u32) - 48) as u32;
        lemma_parse_digit(d, n);
    }
    match dow_name_spec(d) {
        Some(name) => {
            let a = name.take(3);
            if name == "Sunday"@ {
                assert(a =~= seq!['S', 'u', 'n']);
            } else if name == "Monday"@ {
                assert(a =~= seq!['M', 'o', 'n']);
                lemma_not_abbrev_before(a, 1);
                if d.len() == 3 {
                    lemma_not_abbrev_before(d, 1);
                }
            } else if name == "Tuesday"@ {
                assert(a =~= seq!['T', 'u', 'e']);
                lemma_not_abbrev_before(a, 2);
                if d.len() == 3 {
                    lemma_not_abbrev_before(d, 2);
                }
            } else if name == "Wednesday"@ {
                assert(a =~= seq!['W', 'e', 'd']);
                lemma_not_abbrev_before(a, 3);
                if d.len() == 3 {
                    lemma_not_abbrev_before(d, 3);
                }
            } else if name == "Thursday"@ {
                assert(a =~= seq!['T', 'h', 'u']);
                lemma_not_abbrev_before(a, 4);
                if d.len() == 3 {
                    lemma_not_abbrev_before(d, 4);
                }
            } else if name == "Friday"@ {
                assert(a =~= seq!['F', 'r', 'i']);
                lemma_not_abbrev_before(a, 5);
                if d.len() == 3 {
                    lemma_not_abbrev_before(d, 5);
                }
            } else {
                assert(name == "Saturday"@);
                assert(a =~= seq!['S', 'a', 't']);
                lemma_not_abbrev_before(a, 6);
                if d.len() == 3 {
                    lemma_not_abbrev_before(d, 6);
                }
            }
        },
        None => {},
    }
}

proof fn lemma_parse_two_digits(d: Seq<char>, n: u32)
    requires
        d.len() == 2,
        10 <= n < 100,
        d[0] as u32 == n / 10 + 48,
        d[1] as u32 == n % 10 + 48,
    ensures
        parse_u32(d) == Some(n),
{
    let f = d.drop_last();
    assert(f.last() == d[0]);
    assert(digits_value(f.drop_last()) == 0);
    assert(digits_value(f) == n / 10);
    assert(d.last() == d[1]);
    assert(digits_value(d) == n);
    assert(unsigned_digits(d) == d);
    assert(all_digits(d));
}

/// The month number a month value stands for.
pub open spec fn month_of(m: Seq<char>) -> Option<u32> {
    match month_number_spec(m) {
        Some(n) => Some(n),
        None => parse_u32(m),
    }
}

/// Each month value is named as the month it stands for: the name's first
/// three letters read, ignoring case, as the abbreviation of the same
/// month (so 2 and `feb` are February); and every number from 1 to 12 has
/// a name.
pub proof fn lemma_month_names(d: Seq<char>)
    ensures
        match month_name_spec(d) {
            Some(name) => name.len() >= 3 && month_of(d) is Some && month_of(name.take(3))
                == month_of(d),
            None => true,
        },
        forall|v: u32| 1 <= v <= 12 ==> (#[trigger] month_name_spec(decimal(v as nat))) is Some,
{
    reveal_strlit("1");
    reveal_strlit("jan");
    reveal_strlit("JAN");
    reveal_strlit("January");
    reveal_strlit("2");
    reveal_strlit("feb");
    reveal_strlit("FEB");
    reveal_strlit("February");
    reveal_strlit("3");
    reveal_strlit("mar");
    reveal_strlit("MAR");
    reveal_strlit("March");
    reveal_strlit("4");
    reveal_strlit("apr");
    reveal_strlit("APR");
    reveal_strlit("April");
    reveal_strlit("5");
    reveal_strlit("may");
    reveal_strlit("MAY");
    reveal_strlit("May");
    reveal_strlit("6");
    reveal_strlit("jun");
    reveal_strlit("JUN");
    reveal_strlit("June");
    reveal_strlit("7");
    reveal_strlit("jul");
    reveal_strlit("JUL");
    reveal_strlit("July");
    reveal_strlit("8");
    reveal_strlit("aug");
    reveal_strlit("AUG");
    reveal_strlit("August");
    reveal_strlit("9");
    reveal_strlit("sep");
    reveal_strlit("SEP");
    reveal_strlit("September");
    reveal_strlit("10");
    reveal_strlit("oct");
    reveal_strlit("OCT");
    reveal_strlit("October");
    reveal_strlit("11");
    reveal_strlit("nov");
    reveal_strlit("NOV");
    reveal_strlit("November");
    reveal_strlit("12");
    reveal_strlit("dec");
    reveal_strlit("DEC");
    reveal_strlit("December");
    assert forall|v: u32| 1 <= v <= 12 implies (#[trigger] month_name_spec(decimal(v as nat))) is Some by {
        let t = decimal(v as nat);
        if v < 10 {
            assert(t =~= seq![digit_char(v as nat)]);
        } else {
            assert(decimal((v / 10) as nat) =~= seq!['1']);
            assert(t =~= seq!['1', digit_char((v % 10) as nat)]);
        }
        if v == 1 {
            assert(t =~= "1"@);
        } else if v == 2 {
            assert(t =~= "2"@);
        } else if v == 3 {
            assert(t =~= "3"@);
        } else if v == 4 {
            assert(t =~= "4"@);
        } else if v == 5 {
            assert(t =~= "5"@);
        } else if v == 6 {
            assert(t =~= "6"@);
        } else if v == 7 {
            assert(t =~= "7"@);
        } else if v == 8 {
            assert(t =~= "8"@);
        } else if v == 9 {
            assert(t =~= "9"@);
        } else if v == 10 {
            assert(t =~= "10"@);
        } else if v == 11 {
            assert(t =~= "11"@);
        } else {
            assert(t =~= "12"@);
        }
    }
    let a_name = month_name_spec(d);
    if d == "1"@ || d == "jan"@ || d == "JAN"@ {
        assert(a_name == Some("January"@));
        let a = "January"@.take(3);
        assert(a =~= seq!['J', 'a', 'n']);
        if d == "1"@ {
            lemma_parse_digit(d, 1);
        }
    } else if d == "2"@ || d == "feb"@ || d == "FEB"@ {
        assert(a_name == Some("February"@));
        let a = "February"@.take(3);
        assert(a =~= seq!['F', 'e', 'b']);
        lemma_not_ci_at(a, "jan"@, 0);
        if d.len() == 3 {
            lemma_not_ci_at(d, "jan"@, 0);
        }
        if d == "2"@ {
            lemma_parse_digit(d, 2);
        }
    } else if d == "3"@ || d == "mar"@ || d == "MAR"@ {
        assert(a_name == Some("March"@));
        let a = "March"@.take(3);
        assert(a =~= seq!['M', 'a', 'r']);
        lemma_not_ci_at(a, "jan"@, 0);
        if d.len() == 3 {
            lemma_not_ci_at(d, "jan"@, 0);
        }
        lemma_not_ci_at(a, "feb"@, 0);
        if d.len() == 3 {
            lemma_not_ci_at(d, "feb"@, 0);
        }
        if d == "3"@ {
            lemma_parse_digit(d, 3);
        }
    } else if d == "4"@ || d == "apr"@ || d == "APR"@ {
        assert(a_name == Some("April"@));
        let a = "April"@.take(3);
        assert(a =~= seq!['A', 'p', 'r']);
        lemma_not_ci_at(a, "jan"@, 0);
        if d.len() == 3 {
            lemma_not_ci_at(d, "jan"@, 0);
        }
        lemma_not_ci_at(a, "feb"@, 0);
        if d.len() == 3 {
            lemma_not_ci_at(d, "feb"@, 0);
        }
        lemma_not_ci_at(a, "mar"@, 0);
        if d.len() == 3 {
            lemma_not_ci_at(d, "mar"@, 0);
        }
        if d == "4"@ {
            lemma_parse_digit(d, 4);
        }
    } else if d == "5"@ || d == "may"@ || d == "MAY"@ {
        assert(a_name == Some("May"@));
        let a = "May"@.take(3);
        assert(a =~= seq!['M', 'a', 'y']);
        lemma_not_ci_at(a, "jan"@, 0);
        if d.len() == 3 {
            lemma_not_ci_at(d, "jan"@, 0);
        }
        lemma_not_ci_at(a, "feb"@, 0);
        if d.len() == 3 {
            lemma_not_ci_at(d, "feb"@, 0);
        }
        lemma_not_ci_at(a, "mar"@, 2);
        if d.len() == 3 {
            lemma_not_ci_at(d, "mar"@, 2);
        }
        lemma_not_ci_at(a, "apr"@, 0);
        if d.len() == 3 {
            lemma_not_ci_at(d, "apr"@, 0);
        }
        if d == "5"@ {
            lemma_parse_digit(d, 5);
        }
    } else if d == "6"@ || d == "jun"@ || d == "JUN"@ {
        assert(a_name == Some("June"@));
        let a = "June"@.take(3);
        assert(a =~= seq!['J', 'u', 'n']);
        lemma_not_ci_at(a, "jan"@, 1);
        if d.len() == 3 {
            lemma_not_ci_at(d, "jan"@, 1);
        }
        lemma_not_ci_at(a, "feb"@, 0);
        if d.len() == 3 {
            lemma_not_ci_at(d, "feb"@, 0);
        }
        lemma_not_ci_at(a, "mar"@, 0);
        if d.len() == 3 {
            lemma_not_ci_at(d, "mar"@, 0);
        }
        lemma_not_ci_at(a, "apr"@, 0);
        if d.len() == 3 {
            lemma_not_ci_at(d, "apr"@, 0);
        }
        lemma_not_ci_at(a, "may"@, 0);
        if d.len() == 3 {
            lemma_not_ci_at(d, "may"@, 0);
        }
        if d == "6"@ {
            lemma_parse_digit(d, 6);
        }
    } else if d == "7"@ || d == "jul"@ || d == "JUL"@ {
        assert(a_name == Some("July"@));
        let a = "July"@.take(3);
        assert(a =~= seq!['J', 'u', 'l']);
        lemma_not_ci_at(a, "jan"@, 1);
        if d.len() == 3 {
            lemma_not_ci_at(d, "jan"@, 1);
        }
        lemma_not_ci_at(a, "feb"@, 0);
        if d.len() == 3 {
            lemma_not_ci_at(d, "feb"@, 0);
        }
        lemma_not_ci_at(a, "mar"@, 0);
        if d.len() == 3 {
            lemma_not_ci_at(d, "mar"@, 0);
        }
        lemma_not_ci_at(a, "apr"@, 0);
        if d.len() == 3 {
            lemma_not_ci_at(d, "apr"@, 0);
        }
        lemma_not_ci_at(a, "may"@, 0);
        if d.len() == 3 {
            lemma_not_ci_at(d, "may"@, 0);
        }
        lemma_not_ci_at(a, "jun"@, 2);
        if d.len() == 3 {
            lemma_not_ci_at(d, "jun"@, 2);
        }
        if d == "7"@ {
            lemma_parse_digit(d, 7);
        }
    } else if d == "8"@ || d == "aug"@ || d == "AUG"@ {
        assert(a_name == Some("August"@));
        let a = "August"@.take(3);
        assert(a =~= seq!['A', 'u', 'g']);
        lemma_not_ci_at(a, "jan"@, 0);
        if d.len() == 3 {
            lemma_not_ci_at(d, "jan"@, 0);
        }
        lemma_not_ci_at(a, "feb"@, 0);
        if d.len() == 3 {
            lemma_not_ci_at(d, "feb"@, 0);
        }
        lemma_not_ci_at(a, "mar"@, 0);
        if d.len() == 3 {
            lemma_not_ci_at(d, "mar"@, 0);
        }
        lemma_not_ci_at(a, "apr"@, 1);
        if d.len() == 3 {
            lemma_not_ci_at(d, "apr"@, 1);
        }
        lemma_not_ci_at(a, "may"@, 0);
        if d.len() == 3 {
            lemma_not_ci_at(d, "may"@, 0);
        }
        lemma_not_ci_at(a, "jun"@, 0);
        if d.len() == 3 {
            lemma_not_ci_at(d, "jun"@, 0);
        }
        lemma_not_ci_at(a, "jul"@, 0);
        if d.len() == 3 {
            lemma_not_ci_at(d, "jul"@, 0);
        }
        if d == "8"@ {
            lemma_parse_digit(d, 8);
        }
    } else if d == "9"@ || d == "sep"@ || d == "SEP"@ {
        assert(a_name == Some("September"@));
        let a = "September"@.take(3);
        assert(a =~= seq!['S', 'e', 'p']);
        lemma_not_ci_at(a, "jan"@, 0);
        if d.len() == 3 {
            lemma_not_ci_at(d, "jan"@, 0);
        }
        lemma_not_ci_at(a, "feb"@, 0);
        if d.len() == 3 {
            lemma_not_ci_at(d, "feb"@, 0);
        }
        lemma_not_ci_at(a, "mar"@, 0);
        if d.len() == 3 {
            lemma_not_ci_at(d, "mar"@, 0);
        }
        lemma_not_ci_at(a, "apr"@, 0);
        if d.len() == 3 {
            lemma_not_ci_at(d, "apr"@, 0);
        }
        lemma_not_ci_at(a, "may"@, 0);
        if d.len() == 3 {
            lemma_not_ci_at(d, "may"@, 0);
        }
        lemma_not_ci_at(a, "jun"@, 0);
        if d.len() == 3 {
            lemma_not_ci_at(d, "jun"@, 0);
        }
        lemma_not_ci_at(a, "jul"@, 0);
        if d.len() == 3 {
            lemma_not_ci_at(d, "jul"@, 0);
        }
        lemma_not_ci_at(a, "aug"@, 0);
        if d.len() == 3 {
            lemma_not_ci_at(d, "aug"@, 0);
        }
        if d == "9"@ {
            lemma_parse_digit(d, 9);
        }
    } else if d == "10"@ || d == "oct"@ || d == "OCT"@ {
        assert(a_name == Some("October"@));
        let a = "October"@.take(3);
        assert(a =~= seq!['O', 'c', 't']);
        lemma_not_ci_at(a, "jan"@, 0);
        if d.len() == 3 {
            lemma_not_ci_at(d, "jan"@, 0);
        }
        lemma_not_ci_at(a, "feb"@, 0);
        if d.len() == 3 {
            lemma_not_ci_at(d, "feb"@, 0);
        }
        lemma_not_ci_at(a, "mar"@, 0);
        if d.len() == 3 {
            lemma_not_ci_at(d, "mar"@, 0);
        }
        lemma_not_ci_at(a, "apr"@, 0);
        if d.len() == 3 {
            lemma_not_ci_at(d, "apr"@, 0);
        }
        lemma_not_ci_at(a, "may"@, 0);
        if d.len() == 3 {
            lemma_not_ci_at(d, "may"@, 0);
        }
        lemma_not_ci_at(a, "jun"@, 0);
        if d.len() == 3 {
            lemma_not_ci_at(d, "jun"@, 0);
        }
        lemma_not_ci_at(a, "jul"@, 0);
        if d.len() == 3 {
            lemma_not_ci_at(d, "jul"@, 0);
        }
        lemma_not_ci_at(a, "aug"@, 0);
        if d.len() == 3 {
            lemma_not_ci_at(d, "aug"@, 0);
        }
        lemma_not_ci_at(a, "sep"@, 0);
        if d.len() == 3 {
            lemma_not_ci_at(d, "sep"@, 0);
        }
        if d == "10"@ {
            lemma_parse_two_digits(d, 10);
        }
    } else if d == "11"@ || d == "nov"@ || d == "NOV"@ {
        assert(a_name == Some("November"@));
        let a = "November"@.take(3);
        assert(a =~= seq!['N', 'o', 'v']);
        lemma_not_ci_at(a, "jan"@, 0);
        if d.len() == 3 {
            lemma_not_ci_at(d, "jan"@, 0);
        }
        lemma_not_ci_at(a, "feb"@, 0);
        if d.len() == 3 {
            lemma_not_ci_at(d, "feb"@, 0);
        }
        lemma_not_ci_at(a, "mar"@, 0);
        if d.len() == 3 {
            lemma_not_ci_at(d, "mar"@, 0);
        }
        lemma_not_ci_at(a, "apr"@, 0);
        if d.len() == 3 {
            lemma_not_ci_at(d, "apr"@, 0);
        }
        lemma_not_ci_at(a, "may"@, 0);
        if d.len() == 3 {
            lemma_not_ci_at(d, "may"@, 0);
        }
        lemma_not_ci_at(a, "jun"@, 0);
        if d.len() == 3 {
            lemma_not_ci_at(d, "jun"@, 0);
        }
        lemma_not_ci_at(a, "jul"@, 0);
        if d.len() == 3 {
            lemma_not_ci_at(d, "jul"@, 0);
        }
        lemma_not_ci_at(a, "aug"@, 0);
        if d.len() == 3 {
            lemma_not_ci_at(d, "aug"@, 0);
        }
        lemma_not_ci_at(a, "sep"@, 0);
        if d.len() == 3 {
            lemma_not_ci_at(d, "sep"@, 0);
        }
        lemma_not_ci_at(a, "oct"@, 0);
        if d.len() == 3 {
            lemma_not_ci_at(d, "oct"@, 0);
        }
        if d == "11"@ {
            lemma_parse_two_digits(d, 11);
        }
    } else if d == "12"@ || d == "dec"@ || d == "DEC"@ {
        assert(a_name == Some("December"@));
        let a = "December"@.take(3);
        assert(a =~= seq!['D', 'e', 'c']);
        lemma_not_ci_at(a, "jan"@, 0);
        if d.len() == 3 {
            lemma_not_ci_at(d, "jan"@, 0);
        }
        lemma_not_ci_at(a, "feb"@, 0);
        if d.len() == 3 {
            lemma_not_ci_at(d, "feb"@, 0);
        }
        lemma_not_ci_at(a, "mar"@, 0);
        if d.len() == 3 {
            lemma_not_ci_at(d, "mar"@, 0);
        }
        lemma_not_ci_at(a, "apr"@, 0);
        if d.len() == 3 {
            lemma_not_ci_at(d, "apr"@, 0);
        }
        lemma_not_ci_at(a, "may"@, 0);
        if d.len() == 3 {
            lemma_not_ci_at(d, "may"@, 0);
        }
        lemma_not_ci_at(a, "jun"@, 0);
        if d.len() == 3 {
            lemma_not_ci_at(d, "jun"@, 0);
        }
        lemma_not_ci_at(a, "jul"@, 0);
        if d.len() == 3 {
            lemma_not_ci_at(d, "jul"@, 0);
        }
        lemma_not_ci_at(a, "aug"@, 0);
        if d.len() == 3 {
            lemma_not_ci_at(d, "aug"@, 0);
        }
        lemma_not_ci_at(a, "sep"@, 0);
        if d.len() == 3 {
            lemma_not_ci_at(d, "sep"@, 0);
        }
        lemma_not_ci_at(a, "oct"@, 0);
        if d.len() == 3 {
            lemma_not_ci_at(d, "oct"@, 0);
        }
        lemma_not_ci_at(a, "nov"@, 0);
        if d.len() == 3 {
            lemma_not_ci_at(d, "nov"@, 0);
        }
        if d == "12"@ {
            lemma_parse_two_digits(d, 12);
        }
    }
}

proof fn lemma_trim_end_keeps_first(s: Seq<char>)
    requires
        s.len() > 0,
        !is_ws(s[0]),
    ensures
        trim_end(s).len() > 0,
        trim_end(s)[0] == s[0],
    decreases s.len(),
{
    if s.len() > 1 && is_ws(s.last()) {
        lemma_trim_end_keeps_first(s.drop_last());
    }
}

/// A line whose first non-blank character is `#` is a comment and defines
/// no job, in a user crontab or a system one; so does a line whose first
/// field sets an environment variable (`NAME=value`).
pub proof fn lemma_comments_define_no_job(line: Seq<char>, user: Seq<char>, source: CronSourceView)
    ensures
        trim_start(line).len() > 0 && trim_start(line)[0] == '#' ==> crontab_line_spec(
            line,
            user,
            source,
        ) is None && system_line_spec(line, source) is None,
        first_word(trim(line)).contains('=') ==> crontab_line_spec(line, user, source) is None
            && system_line_spec(line, source) is None,
{
    if trim_start(line).len() > 0 && trim_start(line)[0] == '#' {
        lemma_trim_end_keeps_first(trim_start(line));
    }
}

/// A crontab line that defines a job has as its schedule the first five
/// whitespace-separated fields of the (trimmed) line, in order, joined by
/// single spaces; a system crontab line has as its user the sixth field.
pub proof fn lemma_line_fields(line: Seq<char>, user: Seq<char>, source: CronSourceView)
    ensures
        crontab_line_spec(line, user, source) matches Some(j) ==> words(trim(line)).len() >= 5
            && j.schedule == join(words(trim(line)).take(5), " "@) && j.user == user,
        system_line_spec(line, source) matches Some(j) ==> words(trim(line)).len() >= 6
            && j.schedule == join(words(trim(line)).take(5), " "@) && j.user == words(
            trim(line),
        )[5],
{
    let t = trim(line);
    lemma_trim_start_first(line);
    if trim_start(line).len() > 0 {
        lemma_trim_end_keeps_first(trim_start(line));
    }
    lemma_fields_len(t, 6);
    lemma_fields_len(t, 7);
    if crontab_line_spec(line, user, source) is Some {
        lemma_fields_are_words(t, 6);
    }
    if system_line_spec(line, source) is Some {
        lemma_fields_are_words(t, 7);
        let p = fields_ws(t, 7);
        assert(p.take(5) =~= p.take(6).take(5));
        assert(words(t).take(5) =~= words(t).take(6).take(5));
        assert(p[5] == p.take(6)[5]);
        assert(words(t)[5] == words(t).take(6)[5]);
    }
}

proof fn lemma_trim_start_first(s: Seq<char>)
    ensures
        trim_start(s).len() > 0 ==> !is_ws(trim_start(s)[0]),
    decreases s.len(),
{
    if s.len() > 0 && is_ws(s[0]) {
        lemma_trim_start_first(s.drop_first());
    }
}

} // verus!
