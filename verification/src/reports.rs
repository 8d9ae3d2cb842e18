//! The report engine: filtering a sequence of entries by date range
//! and tags, sorting by date, grouping by day, week, month or label,
//! and totalling durations.

use vstd::prelude::*;

use crate::dates::Date;
use crate::duration::Duration;
use crate::entry::{Entry, EntryV};
use crate::tag::{Tag, Tags};

verus! {

/// The dimension used to bucket entries before summing durations.
#[derive(Debug, Clone, Copy, PartialEq, Eq, Structural)]
pub enum GroupBy {
    Day,
    Week,
    Month,
    Label,
}

/// Failure to read a grouping keyword.
#[derive(Debug, Clone, Copy, PartialEq, Eq, Structural)]
pub enum ParseGroupByError {
    UnknownGroupByKeyword,
}

/// `a` is `b` up to ASCII case, where `b` is already lower case.
pub open spec fn char_eq_lower(a: char, b: char) -> bool {
    a == b || ('A' <= a && a <= 'Z' && a as int + 32 == b as int)
}

/// `s` spells `t` up to ASCII case, `t` written in lower case.
pub open spec fn eq_ignore_case(s: Seq<char>, t: Seq<char>) -> bool {
    s.len() == t.len() && forall|i: int| 0 <= i < s.len() ==> char_eq_lower(s[i], #[trigger] t[i])
}

/// Compares `s` to the lower-case keyword `kw`, ignoring ASCII case.
fn matches_keyword(s: &str, kw: &str) -> (r: bool)
    ensures
        r == eq_ignore_case(s@, kw@),
{
    let n = s.unicode_len();
    if n != kw.unicode_len() {
        return false;
    }
    let mut i: usize = 0;
    while i < n
        invariant
            i <= n == s@.len() == kw@.len(),
            forall|j: int| 0 <= j < i ==> char_eq_lower(s@[j], #[trigger] kw@[j]),
        decreases n - i,
    {
        let a = s.get_char(i);
        let b = kw.get_char(i);
        let same = a == b || (a >= 'A' && a <= 'Z' && (a as u32) + 32 == b as u32);
        if !same {
            proof {
                assert(!char_eq_lower(s@[i as int], kw@[i as int]));
            }
            return false;
        }
        i = i + 1;
    }
    true
}

impl GroupBy {
    /// Reads a grouping keyword, ignoring ASCII case: `day`, `week`,
    /// `month` or `label`. Anything else is unknown.
    pub fn from_str(s: &str) -> (r: Result<GroupBy, ParseGroupByError>)
        ensures
            r == Ok::<GroupBy, ParseGroupByError>(GroupBy::Day) <==> eq_ignore_case(s@, "day"@),
            r == Ok::<GroupBy, ParseGroupByError>(GroupBy::Week) <==> eq_ignore_case(s@, "week"@),
            r == Ok::<GroupBy, ParseGroupByError>(GroupBy::Month) <==> eq_ignore_case(
                s@,
                "month"@,
            ),
            r == Ok::<GroupBy, ParseGroupByError>(GroupBy::Label) <==> eq_ignore_case(
                s@,
                "label"@,
            ),
            r is Err ==> r == Err::<GroupBy, ParseGroupByError>(
                ParseGroupByError::UnknownGroupByKeyword,
            ),
    {
        proof {
            reveal_strlit("day");
            reveal_strlit("week");
            reveal_strlit("month");
            reveal_strlit("label");
            if eq_ignore_case(s@, "month"@) && eq_ignore_case(s@, "label"@) {
                assert(char_eq_lower(s@[0], "month"@[0]));
                assert(char_eq_lower(s@[0], "label"@[0]));
                assert(false);
            }
        }
        if matches_keyword(s, "day") {
            Ok(GroupBy::Day)
        } else if matches_keyword(s, "week") {
            Ok(GroupBy::Week)
        } else if matches_keyword(s, "month") {
            Ok(GroupBy::Month)
        } else if matches_keyword(s, "label") {
            Ok(GroupBy::Label)
        } else {
            Err(ParseGroupByError::UnknownGroupByKeyword)
        }
    }
}

/// Reads a grouping keyword, as the command line hands it over.
pub fn parse_group_by(arg: &str) -> (r: Result<GroupBy, ParseGroupByError>)
    ensures
        r == Ok::<GroupBy, ParseGroupByError>(GroupBy::Day) <==> eq_ignore_case(arg@, "day"@),
        r == Ok::<GroupBy, ParseGroupByError>(GroupBy::Week) <==> eq_ignore_case(arg@, "week"@),
        r == Ok::<GroupBy, ParseGroupByError>(GroupBy::Month) <==> eq_ignore_case(arg@, "month"@),
        r == Ok::<GroupBy, ParseGroupByError>(GroupBy::Label) <==> eq_ignore_case(arg@, "label"@),
        r is Err ==> r == Err::<GroupBy, ParseGroupByError>(
            ParseGroupByError::UnknownGroupByKeyword,
        ),
{
    GroupBy::from_str(arg)
}

/// What a report asks for: an inclusive date range (either bound may
/// be absent), a tag filter (an entry must carry every listed tag; an
/// empty list restricts nothing), and an optional grouping dimension.
pub struct ReportQuery {
    pub from: Option<Date>,
    pub to: Option<Date>,
    pub tags: Tags,
    pub group_by: Option<GroupBy>,
}

/// The mathematical content of a query.
#[verifier::ext_equal]
pub ghost struct QueryV {
    pub from: Option<Date>,
    pub to: Option<Date>,
    pub tags: Seq<Seq<char>>,
    pub group_by: Option<GroupBy>,
}

impl View for ReportQuery {
    type V = QueryV;

    open spec fn view(&self) -> QueryV {
        QueryV { from: self.from, to: self.to, tags: self.tags@, group_by: self.group_by }
    }
}

impl ReportQuery {
    /// A query's date bounds are valid dates.
    pub open spec fn wf(&self) -> bool {
        &&& (self@.from matches Some(f) ==> f.wf())
        &&& (self@.to matches Some(t) ==> t.wf())
    }
}

/// Fills an absent upper bound with today's date, leaving everything
/// else as it was: a report reaches up to now unless told otherwise.
/// When the clock falls outside the supported year span the bound
/// stays absent, and the range simply stays open at the top.
pub fn with_default_to(q: ReportQuery) -> (r: ReportQuery)
    requires
        q.wf(),
    ensures
        r@.from == q@.from,
        r@.tags == q@.tags,
        r@.group_by == q@.group_by,
        q@.to is Some ==> r@.to == q@.to,
        r.wf(),
{
    match q.to {
        Some(_) => q,
        None => ReportQuery {
            from: q.from,
            to: crate::clock::today(),
            tags: q.tags,
            group_by: q.group_by,
        },
    }
}

/// Whether an entry passes a query's filters: its date within the
/// inclusive range, and every filter tag present among its tags.
pub open spec fn entry_passes(e: EntryV, q: QueryV) -> bool {
    &&& (match q.from {
        Some(f) => f.day_number() <= e.date.day_number(),
        None => true,
    })
    &&& (match q.to {
        Some(t) => e.date.day_number() <= t.day_number(),
        None => true,
    })
    &&& (forall|j: int| 0 <= j < q.tags.len() ==> e.tags.contains(#[trigger] q.tags[j]))
}

/// The filter an entry sequence is held to under query `q`.
pub open spec fn passes(q: QueryV) -> spec_fn(EntryV) -> bool {
    |e: EntryV| entry_passes(e, q)
}

/// Keeps the entries that pass the query's date and tag filters, in
/// their original order.
pub fn filter_entries(entries: &Vec<Entry>, q: &ReportQuery) -> (r: Vec<Entry>)
    requires
        q.wf(),
        forall|i: int| 0 <= i < entries@.len() ==> (#[trigger] entries@[i]).wf(),
    ensures
        r.deep_view() == entries.deep_view().filter(passes(q@)),
        forall|i: int| 0 <= i < r@.len() ==> (#[trigger] r@[i]).wf(),
{
    let mut out: Vec<Entry> = Vec::new();
    let mut i: usize = 0;
    proof {
        reveal_with_fuel(Seq::<EntryV>::filter, 1);
        assert(entries.deep_view().subrange(0, 0) =~= Seq::<EntryV>::empty());
        assert(Seq::<EntryV>::empty().filter(passes(q@)) =~= Seq::<EntryV>::empty());
        assert(out.deep_view() =~= Seq::<EntryV>::empty());
    }
    while i < entries.len()
        invariant
            i <= entries@.len(),
            entries.deep_view().len() == entries@.len(),
            q.wf(),
            forall|k: int| 0 <= k < entries@.len() ==> (#[trigger] entries@[k]).wf(),
            out.deep_view() =~= entries.deep_view().subrange(0, i as int).filter(passes(q@)),
            forall|k: int| 0 <= k < out@.len() ==> (#[trigger] out@[k]).wf(),
        decreases entries@.len() - i,
    {
        let e = &entries[i];
        let from_ok = match q.from {
            Some(f) => f.le(&e.date()),
            None => true,
        };
        let to_ok = match q.to {
            Some(t) => e.date().le(&t),
            None => true,
        };
        let tags_ok = e.tags().contains_all(&q.tags);
        let ok = from_ok && to_ok && tags_ok;
        proof {
            let ev = entries.deep_view()[i as int];
            assert(ev == entries@[i as int].deep_view());
            assert(tags_ok == (forall|j: int|
                0 <= j < q.tags@.len() ==> e@.tags.contains(#[trigger] q.tags@[j])));
            assert(q.tags@ == q@.tags);
            assert(e@.tags == ev.tags);
            assert(tags_ok == (forall|j: int|
                0 <= j < q@.tags.len() ==> ev.tags.contains(#[trigger] q@.tags[j])));
            assert(ok == entry_passes(ev, q@));
        }
        let ghost pre = out.deep_view();
        let ghost sub = entries.deep_view().subrange(0, i as int);
        let ghost sub2 = entries.deep_view().subrange(0, i + 1 as int);
        if ok {
            out.push(e.clone_entry());
        }
        proof {
            reveal_with_fuel(Seq::<EntryV>::filter, 1);
            assert(sub2.drop_last() =~= sub);
            assert(sub2.last() == entries.deep_view()[i as int]);
            if ok {
                assert(entry_passes(entries.deep_view()[i as int], q@));
                assert(out.deep_view() =~= pre.push(entries.deep_view()[i as int]));
            } else {
                assert(!entry_passes(entries.deep_view()[i as int], q@));
            }
            assert(out.deep_view() =~= sub2.filter(passes(q@)));
        }
        i = i + 1;
    }
    proof {
        assert(entries.deep_view().subrange(0, entries@.len() as int) =~= entries.deep_view());
    }
    out
}

/// Total minutes over a sequence of entries.
pub open spec fn sum_minutes(s: Seq<EntryV>) -> int
    decreases s.len(),
{
    if s.len() == 0 {
        0
    } else {
        sum_minutes(s.drop_last()) + s.last().minutes
    }
}

/// A sum of entry minutes splits over concatenation.
pub proof fn lemma_sum_minutes_concat(a: Seq<EntryV>, b: Seq<EntryV>)
    ensures
        sum_minutes(a + b) == sum_minutes(a) + sum_minutes(b),
    decreases b.len(),
{
    if b.len() == 0 {
        assert(a + b =~= a);
    } else {
        lemma_sum_minutes_concat(a, b.drop_last());
        assert((a + b).drop_last() =~= a + b.drop_last());
        assert((a + b).last() == b.last());
    }
}

/// With no negative duration, a prefix never sums to more than the
/// whole.
pub proof fn lemma_sum_minutes_prefix(s: Seq<EntryV>, i: int)
    requires
        0 <= i <= s.len(),
        forall|j: int| 0 <= j < s.len() ==> (#[trigger] s[j]).minutes >= 0,
    ensures
        sum_minutes(s.subrange(0, i)) <= sum_minutes(s),
        sum_minutes(s.subrange(0, i)) >= 0,
    decreases s.len() - i,
{
    let sub = s.subrange(0, i);
    assert(forall|j: int| 0 <= j < sub.len() ==> (#[trigger] sub[j]).minutes >= 0) by {
        assert(forall|j: int| 0 <= j < sub.len() ==> sub[j] == #[trigger] s[j]);
    }
    lemma_sum_minutes_nonneg(sub);
    if i == s.len() {
        assert(s.subrange(0, i) =~= s);
    } else {
        lemma_sum_minutes_prefix(s, i + 1);
        let t = s.subrange(0, i + 1);
        assert(t.drop_last() =~= s.subrange(0, i));
        assert(t.last() == s[i]);
    }
}

/// A sum of non-negative minutes is non-negative.
pub proof fn lemma_sum_minutes_nonneg(s: Seq<EntryV>)
    requires
        forall|j: int| 0 <= j < s.len() ==> (#[trigger] s[j]).minutes >= 0,
    ensures
        sum_minutes(s) >= 0,
    decreases s.len(),
{
    if s.len() > 0 {
        lemma_sum_minutes_nonneg(s.drop_last());
    }
}

/// Sums the durations of all entries: the grand total.
pub fn total_duration(entries: &Vec<Entry>) -> (r: Duration)
    requires
        forall|i: int| 0 <= i < entries@.len() ==> (#[trigger] entries@[i]).wf(),
        sum_minutes(entries.deep_view()) <= i64::MAX,
    ensures
        r@ == sum_minutes(entries.deep_view()),
        r.valid(),
{
    let ghost dv = entries.deep_view();
    let mut acc = Duration::zero();
    let mut i: usize = 0;
    proof {
        assert(dv.subrange(0, 0) =~= Seq::<EntryV>::empty());
    }
    while i < entries.len()
        invariant
            i <= entries@.len(),
            dv == entries.deep_view(),
            dv.len() == entries@.len(),
            forall|j: int| 0 <= j < entries@.len() ==> (#[trigger] entries@[j]).wf(),
            sum_minutes(dv) <= i64::MAX,
            acc@ == sum_minutes(dv.subrange(0, i as int)),
            acc.valid(),
        decreases entries@.len() - i,
    {
        proof {
            assert(forall|j: int| 0 <= j < dv.len() ==> (#[trigger] dv[j]).minutes >= 0) by {
                assert(forall|j: int|
                    0 <= j < dv.len() ==> dv[j] == (#[trigger] entries@[j]).deep_view());
            }
            lemma_sum_minutes_prefix(dv, i + 1);
            assert(dv.subrange(0, i + 1).drop_last() =~= dv.subrange(0, i as int));
            assert(dv.subrange(0, i + 1).last() == dv[i as int]);
        }
        acc = acc.add(entries[i].duration());
        i = i + 1;
    }
    proof {
        assert(dv.subrange(0, dv.len() as int) =~= dv);
    }
    acc
}

/// The entries stand in ascending date order.
pub open spec fn sorted_by_date(s: Seq<EntryV>) -> bool {
    forall|i: int, j: int|
        0 <= i < j < s.len() ==> s[i].date.day_number() <= s[j].date.day_number()
}

/// The entries that fall on day number `k`.
pub open spec fn on_day(k: int) -> spec_fn(EntryV) -> bool {
    |e: EntryV| e.date.day_number() == k
}

/// Exchanging two neighbours on different days disturbs no single
/// day's subsequence, and no sum of minutes.
proof fn lemma_swap_adjacent(s: Seq<EntryV>, j: int)
    requires
        1 <= j < s.len(),
        s[j - 1].date.day_number() != s[j].date.day_number(),
    ensures
        forall|k: int| #[trigger] (s.update(j - 1, s[j]).update(j, s[j - 1])).filter(on_day(k))
            == s.filter(on_day(k)),
        sum_minutes(s.update(j - 1, s[j]).update(j, s[j - 1])) == sum_minutes(s),
{
    let a = s[j - 1];
    let b = s[j];
    let s2 = s.update(j - 1, b).update(j, a);
    let pre = s.subrange(0, j - 1);
    let post = s.subrange(j + 1, s.len() as int);
    assert(s =~= pre + (seq![a] + seq![b]) + post);
    assert(s2 =~= pre + (seq![b] + seq![a]) + post);
    assert forall|k: int| #[trigger] s2.filter(on_day(k)) == s.filter(on_day(k)) by {
        let p = on_day(k);
        lemma_filter_two(a, b, k);
        Seq::filter_distributes_over_add(pre, seq![a] + seq![b], p);
        Seq::filter_distributes_over_add(pre + (seq![a] + seq![b]), post, p);
        Seq::filter_distributes_over_add(pre, seq![b] + seq![a], p);
        Seq::filter_distributes_over_add(pre + (seq![b] + seq![a]), post, p);
        assert((pre + (seq![a] + seq![b])) + post =~= s);
        assert((pre + (seq![b] + seq![a])) + post =~= s2);
    }
    lemma_sum_minutes_concat(pre, seq![a] + seq![b]);
    lemma_sum_minutes_concat(pre + (seq![a] + seq![b]), post);
    lemma_sum_minutes_concat(pre, seq![b] + seq![a]);
    lemma_sum_minutes_concat(pre + (seq![b] + seq![a]), post);
    lemma_sum_minutes_concat(seq![a], seq![b]);
    lemma_sum_minutes_concat(seq![b], seq![a]);
    assert((pre + (seq![a] + seq![b])) + post =~= s);
    assert((pre + (seq![b] + seq![a])) + post =~= s2);
    assert(sum_minutes(Seq::<EntryV>::empty()) == 0);
    assert(sum_minutes(seq![a]) == a.minutes) by {
        assert(sum_minutes(Seq::<EntryV>::empty()) == 0);
        assert(seq![a].drop_last() =~= Seq::<EntryV>::empty());
        assert(seq![a].last() == a);
    }
    assert(sum_minutes(seq![b]) == b.minutes) by {
        assert(sum_minutes(Seq::<EntryV>::empty()) == 0);
        assert(seq![b].drop_last() =~= Seq::<EntryV>::empty());
        assert(seq![b].last() == b);
    }
}

/// Two neighbours on different days pass a single day's filter in at
/// most one way: their order does not matter.
proof fn lemma_filter_two(a: EntryV, b: EntryV, k: int)
    requires
        a.date.day_number() != b.date.day_number(),
    ensures
        (seq![a] + seq![b]).filter(on_day(k)) == (seq![b] + seq![a]).filter(on_day(k)),
{
    let p = on_day(k);
    reveal_with_fuel(Seq::<EntryV>::filter, 3);
    let s1 = seq![a] + seq![b];
    let s2 = seq![b] + seq![a];
    assert(s1.drop_last() =~= seq![a]);
    assert(s2.drop_last() =~= seq![b]);
    assert(seq![a].drop_last() =~= Seq::<EntryV>::empty());
    assert(seq![b].drop_last() =~= Seq::<EntryV>::empty());
    if p(a) && p(b) {
        assert(false);
    } else if p(a) {
        assert(s1.filter(p) =~= seq![a]);
        assert(s2.filter(p) =~= seq![a]);
    } else if p(b) {
        assert(s1.filter(p) =~= seq![b]);
        assert(s2.filter(p) =~= seq![b]);
    } else {
        assert(s1.filter(p) =~= Seq::<EntryV>::empty());
        assert(s2.filter(p) =~= Seq::<EntryV>::empty());
    }
}

/// Whether the entry at `j` carries an earlier day than its left
/// neighbour.
fn out_of_order(v: &Vec<Entry>, j: usize) -> (r: bool)
    requires
        1 <= j < v@.len(),
        forall|i: int| 0 <= i < v@.len() ==> (#[trigger] v@[i]).wf(),
    ensures
        r == (v.deep_view()[j - 1].date.day_number() > v.deep_view()[j as int].date.day_number()),
{
    let dprev = v[j - 1].date().to_days();
    let dcur = v[j].date().to_days();
    dprev > dcur
}

/// Sorts entries ascending by date. The sort is stable: for every
/// single day, the subsequence of entries on that day is exactly what
/// it was, in the same order; and no entry, nor any minute, is gained
/// or lost.
pub fn sort_entries(entries: Vec<Entry>) -> (r: Vec<Entry>)
    requires
        forall|i: int| 0 <= i < entries@.len() ==> (#[trigger] entries@[i]).wf(),
    ensures
        r@.len() == entries@.len(),
        forall|i: int| 0 <= i < r@.len() ==> (#[trigger] r@[i]).wf(),
        sorted_by_date(r.deep_view()),
        forall|k: int| #[trigger] r.deep_view().filter(on_day(k)) == entries.deep_view().filter(
            on_day(k),
        ),
        sum_minutes(r.deep_view()) == sum_minutes(entries.deep_view()),
{
    let ghost orig = entries.deep_view();
    let mut v = entries;
    let mut i: usize = 0;
    while i < v.len()
        invariant
            i <= v@.len(),
            v@.len() == orig.len(),
            forall|a: int| 0 <= a < v@.len() ==> (#[trigger] v@[a]).wf(),
            sorted_by_date(v.deep_view().subrange(0, i as int)),
            forall|k: int| #[trigger] v.deep_view().filter(on_day(k)) == orig.filter(on_day(k)),
            sum_minutes(v.deep_view()) == sum_minutes(orig),
        decreases v@.len() - i,
    {
        proof {
            let dv = v.deep_view();
            assert forall|a: int, b: int|
                0 <= a < b <= i && a != i && b != i implies dv[a].date.day_number()
                <= dv[b].date.day_number() by {
                assert(dv.subrange(0, i as int)[a] == dv[a]);
                assert(dv.subrange(0, i as int)[b] == dv[b]);
            }
        }
        let mut j: usize = i;
        while j > 0 && out_of_order(&v, j)
            invariant
                0 <= j <= i < v@.len(),
                v@.len() == orig.len(),
                forall|a: int| 0 <= a < v@.len() ==> (#[trigger] v@[a]).wf(),
                forall|a: int, b: int|
                    0 <= a < b <= i && a != j && b != j ==> v.deep_view()[a].date.day_number()
                        <= v.deep_view()[b].date.day_number(),
                forall|b: int|
                    j < b <= i ==> v.deep_view()[j as int].date.day_number()
                        < (#[trigger] v.deep_view()[b]).date.day_number(),
                forall|k: int| #[trigger] v.deep_view().filter(on_day(k)) == orig.filter(
                    on_day(k),
                ),
                sum_minutes(v.deep_view()) == sum_minutes(orig),
            decreases j,
        {
            let ghost s = v.deep_view();
            proof {
                lemma_swap_adjacent(s, j as int);
            }
            let x = v.remove(j);
            v.insert(j - 1, x);
            proof {
                assert(v.deep_view() =~= s.update(j - 1, s[j as int]).update(j as int, s[j - 1]));
            }
            j = j - 1;
        }
        proof {
            let dv = v.deep_view();
            assert forall|a: int, b: int| 0 <= a < b <= i implies dv[a].date.day_number()
                <= dv[b].date.day_number() by {
                if a == j {
                    assert(dv[a].date.day_number() < dv[b].date.day_number());
                } else if b == j {
                    assert(j > 0);
                    assert(dv[j - 1].date.day_number() <= dv[j as int].date.day_number());
                    if a < j - 1 {
                        assert(dv[a].date.day_number() <= dv[j - 1].date.day_number());
                    }
                }
            }
            assert(sorted_by_date(dv.subrange(0, i + 1)));
        }
        i = i + 1;
    }
    proof {
        assert(v.deep_view().subrange(0, v@.len() as int) =~= v.deep_view());
    }
    v
}

/// The day number that an entry's group anchor falls on: the entry's
/// own day for `Day`, the Monday of its week for `Week`, the first of
/// its month for `Month`. (`Label` buckets are not keyed by a date.)
pub open spec fn key_num(g: GroupBy, e: EntryV) -> int {
    match g {
        GroupBy::Day => e.date.day_number(),
        GroupBy::Week => e.date.day_number() - e.date.day_number() % 7,
        GroupBy::Month => e.date.day_number() - (e.date.day - 1),
        GroupBy::Label => 0,
    }
}

/// Total minutes of the entries whose group anchor falls on day `k`.
pub open spec fn sum_where(g: GroupBy, s: Seq<EntryV>, k: int) -> int
    decreases s.len(),
{
    if s.len() == 0 {
        0
    } else {
        sum_where(g, s.drop_last(), k) + if key_num(g, s.last()) == k {
            s.last().minutes
        } else {
            0int
        }
    }
}

/// Total minutes over date-keyed groups.
pub open spec fn sum_date_groups(s: Seq<(Date, Duration)>) -> int
    decreases s.len(),
{
    if s.len() == 0 {
        0
    } else {
        sum_date_groups(s.drop_last()) + s.last().1@
    }
}

/// A bucket's subtotal never exceeds the whole, and is never negative.
proof fn lemma_sum_where_le(g: GroupBy, s: Seq<EntryV>, k: int)
    requires
        forall|j: int| 0 <= j < s.len() ==> (#[trigger] s[j]).minutes >= 0,
    ensures
        0 <= sum_where(g, s, k) <= sum_minutes(s),
    decreases s.len(),
{
    if s.len() > 0 {
        assert(forall|j: int|
            0 <= j < s.drop_last().len() ==> (#[trigger] s.drop_last()[j]).minutes >= 0);
        lemma_sum_where_le(g, s.drop_last(), k);
    }
}

/// A day no entry's anchor falls on has an empty bucket.
proof fn lemma_sum_where_absent(g: GroupBy, s: Seq<EntryV>, k: int)
    requires
        forall|j: int| 0 <= j < s.len() ==> key_num(g, #[trigger] s[j]) != k,
    ensures
        sum_where(g, s, k) == 0,
    decreases s.len(),
{
    if s.len() > 0 {
        assert(forall|j: int|
            0 <= j < s.drop_last().len() ==> key_num(g, #[trigger] s.drop_last()[j]) != k);
        lemma_sum_where_absent(g, s.drop_last(), k);
    }
}

/// Later entries never have an earlier group anchor.
proof fn lemma_key_monotone(g: GroupBy, a: EntryV, b: EntryV)
    requires
        a.date.wf(),
        b.date.wf(),
        a.date.day_number() <= b.date.day_number(),
    ensures
        key_num(g, a) <= key_num(g, b),
{
    match g {
        GroupBy::Day => {},
        GroupBy::Week => {
            crate::dates::lemma_year_span(a.date);
            crate::dates::lemma_year_span(b.date);
            crate::dates::lemma_week_anchor_monotone(a.date.day_number(), b.date.day_number());
        },
        GroupBy::Month => {
            crate::dates::lemma_month_start_monotone(a.date, b.date);
        },
        GroupBy::Label => {},
    }
}

/// The anchor date of an entry under a date-keyed grouping.
fn key_date(e: &Entry, g: GroupBy) -> (r: Date)
    requires
        e.wf(),
        g != GroupBy::Label,
    ensures
        r.wf(),
        r.day_number() == key_num(g, e@),
{
    match g {
        GroupBy::Day => e.date(),
        GroupBy::Week => e.date().week_start(),
        GroupBy::Month => e.date().month_start(),
        GroupBy::Label => e.date(),  // ruled out by the callers
    }
}

/// Buckets date-sorted entries by day, week or month. Each group is an
/// anchor date with the summed duration of its entries; groups come
/// out in strictly ascending — chronological — order, and together
/// they conserve the grand total.
pub fn group_by_date(entries: &Vec<Entry>, g: GroupBy) -> (r: Vec<(Date, Duration)>)
    requires
        g != GroupBy::Label,
        forall|i: int| 0 <= i < entries@.len() ==> (#[trigger] entries@[i]).wf(),
        sorted_by_date(entries.deep_view()),
        sum_minutes(entries.deep_view()) <= i64::MAX,
    ensures
        forall|t: int|
            0 <= t < r@.len() ==> (#[trigger] r@[t].0).wf() && (r@[t].1).valid() && (r@[t].1)@
                == sum_where(g, entries.deep_view(), r@[t].0.day_number()),
        forall|t: int, u: int|
            0 <= t < u < r@.len() ==> r@[t].0.day_number() < r@[u].0.day_number(),
        forall|t: int|
            0 <= t < entries.deep_view().len() ==> exists|u: int|
                0 <= u < r@.len() && r@[u].0.day_number() == key_num(
                    g,
                    #[trigger] entries.deep_view()[t],
                ),
        sum_date_groups(r@) == sum_minutes(entries.deep_view()),
{
    let ghost dv = entries.deep_view();
    proof {
        assert(forall|j: int| 0 <= j < dv.len() ==> (#[trigger] dv[j]).minutes >= 0) by {
            assert(forall|j: int|
                0 <= j < dv.len() ==> dv[j] == (#[trigger] entries@[j]).deep_view());
        }
        assert(forall|j: int| 0 <= j < dv.len() ==> (#[trigger] dv[j]).date.wf()) by {
            assert(forall|j: int|
                0 <= j < dv.len() ==> dv[j] == (#[trigger] entries@[j]).deep_view());
        }
    }
    let mut groups: Vec<(Date, Duration)> = Vec::new();
    let mut i: usize = 0;
    while i < entries.len()
        invariant
            i <= dv.len(),
            dv == entries.deep_view(),
            dv.len() == entries@.len(),
            g != GroupBy::Label,
            forall|j: int| 0 <= j < entries@.len() ==> (#[trigger] entries@[j]).wf(),
            forall|j: int| 0 <= j < dv.len() ==> (#[trigger] dv[j]).minutes >= 0,
            forall|j: int| 0 <= j < dv.len() ==> (#[trigger] dv[j]).date.wf(),
            sorted_by_date(dv),
            sum_minutes(dv) <= i64::MAX,
            forall|t: int|
                0 <= t < groups@.len() ==> (#[trigger] groups@[t].0).wf() && (groups@[t].1).valid()
                    && (groups@[t].1)@ == sum_where(
                    g,
                    dv.subrange(0, i as int),
                    groups@[t].0.day_number(),
                ),
            forall|t: int, u: int|
                0 <= t < u < groups@.len() ==> groups@[t].0.day_number()
                    < groups@[u].0.day_number(),
            i > 0 ==> groups@.len() > 0 && groups@.last().0.day_number() == key_num(
                g,
                dv[i - 1],
            ),
            i == 0 ==> groups@.len() == 0,
            forall|t: int|
                0 <= t < i ==> exists|u: int|
                    0 <= u < groups@.len() && groups@[u].0.day_number() == key_num(
                        g,
                        #[trigger] dv[t],
                    ),
            sum_date_groups(groups@) == sum_minutes(dv.subrange(0, i as int)),
        decreases dv.len() - i,
    {
        let e = &entries[i];
        let k = key_date(e, g);
        let ghost sub = dv.subrange(0, i as int);
        let ghost sub2 = dv.subrange(0, i + 1 as int);
        let ghost m = dv[i as int].minutes;
        proof {
            assert(e@ == dv[i as int]);
            assert(sub2.drop_last() =~= sub);
            assert(sub2.last() == dv[i as int]);
            assert(forall|kk: int|
                #[trigger] sum_where(g, sub2, kk) == sum_where(g, sub, kk) + if key_num(
                    g,
                    dv[i as int],
                ) == kk {
                    m
                } else {
                    0int
                });
            assert(forall|j: int| 0 <= j < sub2.len() ==> (#[trigger] sub2[j]).minutes >= 0);
            lemma_sum_where_le(g, sub2, key_num(g, dv[i as int]));
            lemma_sum_minutes_prefix(dv, i + 1);
        }
        let ghost oldg = groups@;
        if groups.len() > 0 {
            let last_idx = groups.len() - 1;
            let same = groups[last_idx].0.to_days() == k.to_days();
            if same {
                let (kd, dur) = groups.pop().unwrap();
                groups.push((kd, dur.add(e.duration())));
                proof {
                    assert(groups@ =~= oldg.update(oldg.len() - 1, groups@.last()));
                    assert(groups@.drop_last() =~= oldg.drop_last());
                    assert(sum_date_groups(groups@) == sum_date_groups(oldg.drop_last())
                        + groups@.last().1@);
                    assert(sum_date_groups(oldg) == sum_date_groups(oldg.drop_last())
                        + oldg.last().1@);
                    assert(forall|t: int|
                        0 <= t < groups@.len() ==> (#[trigger] groups@[t].0)
                            == oldg[t].0);
                }
            } else {
                proof {
                    assert(i > 0);
                    lemma_key_monotone(g, dv[i - 1], dv[i as int]);
                    assert(key_num(g, dv[i - 1]) <= key_num(g, dv[i as int]));
                    assert(oldg.last().0.day_number() != k.day_number());
                    assert(forall|t: int|
                        0 <= t < oldg.len() ==> (#[trigger] oldg[t].0).day_number() < k.day_number());
                    assert(forall|j: int| 0 <= j < i ==> key_num(g, #[trigger] dv[j]) != k.day_number())
                        by {
                        let prev = dv[i - 1];
                        assert(forall|j: int|
                            0 <= j < i ==> (#[trigger] dv[j]).date.day_number()
                                <= prev.date.day_number());
                        assert forall|j: int| 0 <= j < i implies key_num(g, #[trigger] dv[j])
                            != k.day_number() by {
                            lemma_key_monotone(g, dv[j], dv[i - 1]);
                        }
                    }
                    assert(forall|j: int|
                        0 <= j < sub.len() ==> key_num(g, #[trigger] sub[j]) != k.day_number());
                    lemma_sum_where_absent(g, sub, k.day_number());
                }
                groups.push((k, e.duration()));
                proof {
                    assert(groups@.drop_last() =~= oldg);
                    assert(sum_date_groups(groups@) == sum_date_groups(oldg) + m);
                }
            }
        } else {
            proof {
                assert(sub =~= Seq::<EntryV>::empty());
                lemma_sum_where_absent(g, sub, k.day_number());
            }
            groups.push((k, e.duration()));
            proof {
                assert(groups@.drop_last() =~= oldg);
                assert(sum_date_groups(groups@) == sum_date_groups(oldg) + m);
            }
        }
        proof {
            assert forall|t: int| 0 <= t < i + 1 implies exists|u: int|
                0 <= u < groups@.len() && groups@[u].0.day_number() == key_num(
                    g,
                    #[trigger] dv[t],
                ) by {
                if t == i {
                    assert(groups@[groups@.len() - 1].0.day_number() == key_num(g, dv[t]));
                } else {
                    let u = choose|u: int|
                        0 <= u < oldg.len() && oldg[u].0.day_number() == key_num(g, dv[t]);
                    assert(groups@[u].0.day_number() == key_num(g, dv[t]));
                }
            }
        }
        i = i + 1;
    }
    proof {
        assert(dv.subrange(0, dv.len() as int) =~= dv);
    }
    groups
}

/// Total minutes of the entries that carry tag `t`. An entry counts
/// once, however often its note writes the tag.
pub open spec fn sum_with_tag(s: Seq<EntryV>, t: Seq<char>) -> int
    decreases s.len(),
{
    if s.len() == 0 {
        0
    } else {
        sum_with_tag(s.drop_last(), t) + if s.last().tags.contains(t) {
            s.last().minutes
        } else {
            0int
        }
    }
}

/// How many distinct labels a tag sequence carries.
pub open spec fn distinct_count(ts: Seq<Seq<char>>) -> int
    decreases ts.len(),
{
    if ts.len() == 0 {
        0
    } else {
        distinct_count(ts.drop_last()) + if ts.drop_last().contains(ts.last()) {
            0int
        } else {
            1int
        }
    }
}

/// Total minutes with label fan-out: each entry contributes its full
/// duration once per distinct label it carries.
pub open spec fn sum_tagged(s: Seq<EntryV>) -> int
    decreases s.len(),
{
    if s.len() == 0 {
        0
    } else {
        sum_tagged(s.drop_last()) + distinct_count(s.last().tags) * s.last().minutes
    }
}

/// Total minutes over label-keyed groups.
pub open spec fn sum_label_groups(s: Seq<(Tag, Duration)>) -> int
    decreases s.len(),
{
    if s.len() == 0 {
        0
    } else {
        sum_label_groups(s.drop_last()) + s.last().1@
    }
}

/// The labels of label-keyed groups, in order.
pub open spec fn label_keys_of(s: Seq<(Tag, Duration)>) -> Seq<Seq<char>> {
    Seq::new(s.len(), |u: int| s[u].0@)
}

/// `acc` extended with the labels of `ts` it does not hold yet, in
/// their order of occurrence.
pub open spec fn dedup_append(acc: Seq<Seq<char>>, ts: Seq<Seq<char>>) -> Seq<Seq<char>>
    decreases ts.len(),
{
    if ts.len() == 0 {
        acc
    } else {
        dedup_append(
            if acc.contains(ts[0]) {
                acc
            } else {
                acc.push(ts[0])
            },
            ts.drop_first(),
        )
    }
}

/// The distinct labels of a sequence of entries, in first-seen order,
/// appended to `acc`.
pub open spec fn label_keys(acc: Seq<Seq<char>>, s: Seq<EntryV>) -> Seq<Seq<char>>
    decreases s.len(),
{
    if s.len() == 0 {
        acc
    } else {
        label_keys(dedup_append(acc, s[0].tags), s.drop_first())
    }
}

/// Handling one more label on the right of a deduplication keeps or
/// appends it, by whether it is already there.
proof fn lemma_dedup_snoc(acc: Seq<Seq<char>>, ts: Seq<Seq<char>>, x: Seq<char>)
    ensures
        dedup_append(acc, ts.push(x)) == (if dedup_append(acc, ts).contains(x) {
            dedup_append(acc, ts)
        } else {
            dedup_append(acc, ts).push(x)
        }),
    decreases ts.len(),
{
    if ts.len() == 0 {
        let acc2 = if acc.contains(x) {
            acc
        } else {
            acc.push(x)
        };
        assert(dedup_append(acc, ts) == acc);
        assert(ts.push(x)[0] == x);
        assert(ts.push(x).drop_first() =~= ts);
        assert(dedup_append(acc, ts.push(x)) == dedup_append(acc2, ts));
        assert(dedup_append(acc2, ts) == acc2);
    } else {
        let acc2 = if acc.contains(ts[0]) {
            acc
        } else {
            acc.push(ts[0])
        };
        assert(ts.push(x)[0] == ts[0]);
        assert(ts.push(x).drop_first() =~= ts.drop_first().push(x));
        assert(dedup_append(acc, ts.push(x)) == dedup_append(acc2, ts.drop_first().push(x)));
        assert(dedup_append(acc, ts) == dedup_append(acc2, ts.drop_first()));
        lemma_dedup_snoc(acc2, ts.drop_first(), x);
    }
}

/// What a sequence holds after a push: what it held, and the new last.
proof fn lemma_contains_push(s: Seq<Seq<char>>, x: Seq<char>, y: Seq<char>)
    ensures
        s.push(x).contains(y) <==> s.contains(y) || y == x,
{
    if s.push(x).contains(y) {
        let w = choose|w: int| 0 <= w < s.push(x).len() && s.push(x)[w] == y;
        if w < s.len() {
            assert(s[w] == y);
        }
    }
    if s.contains(y) {
        let w = choose|w: int| 0 <= w < s.len() && s[w] == y;
        assert(s.push(x)[w] == y);
    }
    if y == x {
        assert(s.push(x)[s.len() as int] == y);
    }
}

/// Deduplication keeps what `acc` holds as a prefix, stays free of
/// repeats, and holds exactly the labels of `acc` and `ts`.
proof fn lemma_dedup_props(acc: Seq<Seq<char>>, ts: Seq<Seq<char>>)
    requires
        forall|t: int, u: int| 0 <= t < u < acc.len() ==> acc[t] != acc[u],
    ensures
        dedup_append(acc, ts).len() >= acc.len(),
        forall|t: int| 0 <= t < acc.len() ==> dedup_append(acc, ts)[t] == acc[t],
        forall|t: int, u: int|
            0 <= t < u < dedup_append(acc, ts).len() ==> dedup_append(acc, ts)[t] != dedup_append(
                acc,
                ts,
            )[u],
        forall|y: Seq<char>|
            #[trigger] dedup_append(acc, ts).contains(y) <==> acc.contains(y) || ts.contains(y),
    decreases ts.len(),
{
    if ts.len() == 0 {
        assert(dedup_append(acc, ts) == acc);
        assert(forall|y: Seq<char>| !ts.contains(y));
    } else {
        let acc2 = if acc.contains(ts[0]) {
            acc
        } else {
            acc.push(ts[0])
        };
        assert(forall|y: Seq<char>| #[trigger] acc2.contains(y) <==> acc.contains(y) || y
            == ts[0]) by {
            assert forall|y: Seq<char>| #[trigger] acc2.contains(y) <==> acc.contains(y) || y
                == ts[0] by {
                lemma_contains_push(acc, ts[0], y);
            }
        }
        assert(forall|t: int, u: int| 0 <= t < u < acc2.len() ==> acc2[t] != acc2[u]) by {
            if !acc.contains(ts[0]) {
                assert(forall|t: int| 0 <= t < acc.len() ==> acc2[t] == acc[t]);
                assert(forall|t: int| 0 <= t < acc.len() ==> acc[t] != ts[0]);
            }
        }
        assert(dedup_append(acc, ts) == dedup_append(acc2, ts.drop_first()));
        lemma_dedup_props(acc2, ts.drop_first());
        assert(forall|t: int| 0 <= t < acc.len() ==> acc2[t] == acc[t]);
        assert forall|t: int| 0 <= t < acc.len() implies dedup_append(acc, ts)[t] == acc[t] by {
            assert(dedup_append(acc2, ts.drop_first())[t] == acc2[t]);
        }
        assert(forall|y: Seq<char>|
            #[trigger] ts.contains(y) <==> y == ts[0] || ts.drop_first().contains(y)) by {
            assert(forall|y: Seq<char>|
                #[trigger] ts.drop_first().contains(y) ==> ts.contains(y));
            assert forall|y: Seq<char>| #[trigger] ts.contains(y) implies y == ts[0]
                || ts.drop_first().contains(y) by {
                let w = choose|w: int| 0 <= w < ts.len() && ts[w] == y;
                if w > 0 {
                    assert(ts.drop_first()[w - 1] == y);
                }
            }
        }
        assert(forall|y: Seq<char>| #[trigger] acc2.contains(y) <==> acc.contains(y) || y == ts[0]);
    }
}

/// A sequence of entries contributes its distinct labels, entry after
/// entry.
proof fn lemma_label_keys_snoc(acc: Seq<Seq<char>>, s: Seq<EntryV>, e: EntryV)
    ensures
        label_keys(acc, s.push(e)) == dedup_append(label_keys(acc, s), e.tags),
    decreases s.len(),
{
    if s.len() == 0 {
        assert(label_keys(acc, s) == acc);
        assert(s.push(e)[0] == e);
        assert(s.push(e).drop_first() =~= s);
        assert(label_keys(acc, s.push(e)) == label_keys(dedup_append(acc, e.tags), s));
        assert(label_keys(dedup_append(acc, e.tags), s) == dedup_append(acc, e.tags));
    } else {
        assert(s.push(e)[0] == s[0]);
        assert(s.push(e).drop_first() =~= s.drop_first().push(e));
        assert(label_keys(acc, s.push(e)) == label_keys(
            dedup_append(acc, s[0].tags),
            s.drop_first().push(e),
        ));
        assert(label_keys(acc, s) == label_keys(dedup_append(acc, s[0].tags), s.drop_first()));
        lemma_label_keys_snoc(dedup_append(acc, s[0].tags), s.drop_first(), e);
    }
}

/// A label bucket's subtotal never exceeds the whole, and is never
/// negative.
proof fn lemma_sum_with_tag_le(s: Seq<EntryV>, t: Seq<char>)
    requires
        forall|j: int| 0 <= j < s.len() ==> (#[trigger] s[j]).minutes >= 0,
    ensures
        0 <= sum_with_tag(s, t) <= sum_minutes(s),
    decreases s.len(),
{
    if s.len() > 0 {
        assert(forall|j: int|
            0 <= j < s.drop_last().len() ==> (#[trigger] s.drop_last()[j]).minutes >= 0);
        lemma_sum_with_tag_le(s.drop_last(), t);
    }
}

/// A label no entry carries has an empty bucket.
proof fn lemma_sum_with_tag_absent(s: Seq<EntryV>, t: Seq<char>)
    requires
        forall|j: int| 0 <= j < s.len() ==> !(#[trigger] s[j]).tags.contains(t),
    ensures
        sum_with_tag(s, t) == 0,
    decreases s.len(),
{
    if s.len() > 0 {
        assert(forall|j: int|
            0 <= j < s.drop_last().len() ==> !(#[trigger] s.drop_last()[j]).tags.contains(t));
        lemma_sum_with_tag_absent(s.drop_last(), t);
    }
}

/// Changing one group changes the total over groups by the difference
/// at that place.
proof fn lemma_sum_label_groups_update(s: Seq<(Tag, Duration)>, u: int, x: (Tag, Duration))
    requires
        0 <= u < s.len(),
    ensures
        sum_label_groups(s.update(u, x)) == sum_label_groups(s) - s[u].1@ + x.1@,
    decreases s.len(),
{
    if u == s.len() - 1 {
        assert(s.update(u, x).drop_last() =~= s.drop_last());
        assert(s.update(u, x).last() == x);
    } else {
        assert(s.update(u, x).drop_last() =~= s.drop_last().update(u, x));
        assert(s.update(u, x).last() == s.last());
        lemma_sum_label_groups_update(s.drop_last(), u, x);
    }
}

/// The first group carrying label `t`, or the group count when none
/// does.
fn find_label(groups: &Vec<(Tag, Duration)>, t: &Tag) -> (r: usize)
    ensures
        r <= groups@.len(),
        r < groups@.len() ==> groups@[r as int].0@ == t@,
        forall|u: int| 0 <= u < r ==> (#[trigger] groups@[u]).0@ != t@,
{
    let mut u: usize = 0;
    while u < groups.len()
        invariant
            u <= groups@.len(),
            forall|w: int| 0 <= w < u ==> (#[trigger] groups@[w]).0@ != t@,
        decreases groups@.len() - u,
    {
        if groups[u].0.eq(t) {
            return u;
        }
        u = u + 1;
    }
    u
}

/// Buckets entries by the labels they carry. One entry fans out into
/// every distinct label of its note, contributing its full duration to
/// each; an entry without tags joins no bucket. Buckets come out in
/// first-seen order, and their subtotals sum to the fanned-out total.
pub fn group_by_label(entries: &Vec<Entry>) -> (r: Vec<(Tag, Duration)>)
    requires
        forall|i: int| 0 <= i < entries@.len() ==> (#[trigger] entries@[i]).wf(),
        sum_minutes(entries.deep_view()) <= i64::MAX,
    ensures
        forall|t: int, u: int| 0 <= t < u < r@.len() ==> r@[t].0@ != r@[u].0@,
        label_keys_of(r@) == label_keys(Seq::<Seq<char>>::empty(), entries.deep_view()),
        forall|u: int|
            0 <= u < r@.len() ==> (#[trigger] r@[u].1)@ == sum_with_tag(
                entries.deep_view(),
                r@[u].0@,
            ) && (r@[u].1).valid(),
        forall|t: int, l: int|
            0 <= t < entries.deep_view().len() && 0 <= l < entries.deep_view()[t].tags.len()
                ==> label_keys_of(r@).contains(#[trigger] entries.deep_view()[t].tags[l]),
        sum_label_groups(r@) == sum_tagged(entries.deep_view()),
{
    let ghost dv = entries.deep_view();
    proof {
        assert(forall|j: int| 0 <= j < dv.len() ==> (#[trigger] dv[j]).minutes >= 0) by {
            assert(forall|j: int|
                0 <= j < dv.len() ==> dv[j] == (#[trigger] entries@[j]).deep_view());
        }
        assert(dv.subrange(0, 0) =~= Seq::<EntryV>::empty());
    }
    let mut groups: Vec<(Tag, Duration)> = Vec::new();
    let mut i: usize = 0;
    proof {
        assert(label_keys_of(groups@) =~= Seq::<Seq<char>>::empty());
    }
    while i < entries.len()
        invariant
            i <= dv.len(),
            dv == entries.deep_view(),
            dv.len() == entries@.len(),
            forall|j: int| 0 <= j < entries@.len() ==> (#[trigger] entries@[j]).wf(),
            forall|j: int| 0 <= j < dv.len() ==> (#[trigger] dv[j]).minutes >= 0,
            sum_minutes(dv) <= i64::MAX,
            forall|t: int, u: int| 0 <= t < u < groups@.len() ==> groups@[t].0@ != groups@[u].0@,
            label_keys_of(groups@) == label_keys(Seq::<Seq<char>>::empty(), dv.subrange(0, i as int)),
            forall|u: int|
                0 <= u < groups@.len() ==> (#[trigger] groups@[u].1)@ == sum_with_tag(
                    dv.subrange(0, i as int),
                    groups@[u].0@,
                ) && (groups@[u].1).valid(),
            forall|t: int, l: int|
                0 <= t < i && 0 <= l < dv[t].tags.len() ==> label_keys_of(groups@).contains(
                    #[trigger] dv[t].tags[l],
                ),
            sum_label_groups(groups@) == sum_tagged(dv.subrange(0, i as int)),
        decreases dv.len() - i,
    {
        let e = &entries[i];
        let dur = e.duration();
        let tags = e.tags();
        let ghost sub = dv.subrange(0, i as int);
        let ghost sub2 = dv.subrange(0, i + 1 as int);
        let ghost tags_e = dv[i as int].tags;
        let ghost m = dv[i as int].minutes;
        let ghost keys0 = label_keys_of(groups@);
        proof {
            assert(e@ == dv[i as int]);
            assert(tags@ == tags_e);
            assert(sub2.drop_last() =~= sub);
            assert(sub2.last() == dv[i as int]);
            assert(tags_e.subrange(0, 0) =~= Seq::<Seq<char>>::empty());
            assert(dedup_append(keys0, Seq::<Seq<char>>::empty()) == keys0);
            lemma_sum_minutes_prefix(dv, i + 1);
            assert(forall|j: int| 0 <= j < sub.len() ==> (#[trigger] sub[j]).minutes >= 0);
            assert(forall|j: int| 0 <= j < sub2.len() ==> (#[trigger] sub2[j]).minutes >= 0);
        }
        let n_tags = tags.len();
        let mut j: usize = 0;
        while j < n_tags
            invariant
                j <= n_tags == tags_e.len(),
                dv == entries.deep_view(),
                dv.len() == entries@.len(),
                i < dv.len(),
                e@ == dv[i as int],
                tags@ == tags_e,
                tags@.len() == tags.0@.len(),
                dur@ == m,
                dur.valid(),
                sub == dv.subrange(0, i as int),
                sub2 == dv.subrange(0, i + 1 as int),
                tags_e == dv[i as int].tags,
                m == dv[i as int].minutes,
                m >= 0,
                forall|jj: int| 0 <= jj < dv.len() ==> (#[trigger] dv[jj]).minutes >= 0,
                sum_minutes(dv) <= i64::MAX,
                sum_minutes(sub2) <= sum_minutes(dv),
                forall|t: int, u: int| 0 <= t < u < groups@.len() ==> groups@[t].0@
                    != groups@[u].0@,
                label_keys_of(groups@) == dedup_append(keys0, tags_e.subrange(0, j as int)),
                keys0 == label_keys(Seq::<Seq<char>>::empty(), sub),
                forall|tt: int, uu: int| 0 <= tt < uu < keys0.len() ==> keys0[tt] != keys0[uu],
                forall|u: int|
                    0 <= u < groups@.len() ==> (#[trigger] groups@[u].1)@ == sum_with_tag(
                        sub,
                        groups@[u].0@,
                    ) + (if tags_e.subrange(0, j as int).contains(groups@[u].0@) {
                        m
                    } else {
                        0int
                    }) && (groups@[u].1).valid(),
                forall|t: int, l: int|
                    0 <= t < i && 0 <= l < dv[t].tags.len() ==> label_keys_of(groups@).contains(
                        #[trigger] dv[t].tags[l],
                    ),
                sum_label_groups(groups@) == sum_tagged(sub) + distinct_count(
                    tags_e.subrange(0, j as int),
                ) * m,
            decreases n_tags - j,
        {
            let t = &tags.0[j];
            let ghost pr = tags_e.subrange(0, j as int);
            let ghost pr2 = tags_e.subrange(0, j + 1 as int);
            proof {
                assert(t@ == tags_e[j as int]);
                assert(pr2 =~= pr.push(tags_e[j as int]));
                assert(pr2.drop_last() =~= pr);
                assert(pr2.last() == tags_e[j as int]);
                lemma_dedup_snoc(keys0, pr, tags_e[j as int]);
                assert forall|y: Seq<char>| #[trigger] pr2.contains(y) <==> pr.contains(y) || y
                    == tags_e[j as int] by {
                    lemma_contains_push(pr, tags_e[j as int], y);
                }
            }
            let dup = tag_in_prefix(tags, j, t);
            if dup {
                proof {
                    assert(label_keys_of(groups@).contains(t@)) by {
                        lemma_dedup_props(keys0, pr);
                    }
                    assert(label_keys_of(groups@) == dedup_append(keys0, pr2));
                    assert(forall|u: int|
                        0 <= u < groups@.len() ==> (#[trigger] groups@[u].1)@ == sum_with_tag(
                            sub,
                            groups@[u].0@,
                        ) + (if pr2.contains(groups@[u].0@) {
                            m
                        } else {
                            0int
                        }));
                }
            } else {
                let u0 = find_label(&groups, t);
                if u0 < groups.len() {
                    let ghost oldg = groups@;
                    let pair = groups.remove(u0);
                    proof {
                        assert(forall|jj: int|
                            0 <= jj < sub.len() ==> (#[trigger] sub[jj]).minutes >= 0);
                        lemma_sum_with_tag_le(sub, t@);
                        assert(pair.1@ == sum_with_tag(sub, t@));
                        assert(sub2.drop_last() =~= sub);
                        assert(sub2.last() == dv[i as int]);
                        assert(sum_minutes(sub2) == sum_minutes(sub) + m);
                    }
                    let merged = (pair.0, pair.1.add(dur));
                    groups.insert(u0, merged);
                    proof {
                        assert(groups@ =~= oldg.update(u0 as int, merged));
                        lemma_sum_label_groups_update(oldg, u0 as int, merged);
                        assert(label_keys_of(groups@) =~= label_keys_of(oldg));
                        assert(label_keys_of(groups@).contains(t@)) by {
                            assert(label_keys_of(groups@)[u0 as int] == t@);
                        }
                    }
                } else {
                    proof {
                        assert(!label_keys_of(groups@).contains(t@)) by {
                            if label_keys_of(groups@).contains(t@) {
                                let w = choose|w: int|
                                    0 <= w < label_keys_of(groups@).len() && label_keys_of(
                                        groups@,
                                    )[w] == t@;
                                assert(groups@[w].0@ == t@);
                            }
                        }
                        assert(forall|tt: int| 0 <= tt < sub.len() ==> !(#[trigger] sub[tt]).tags.contains(t@))
                            by {
                            assert forall|tt: int| 0 <= tt < sub.len() implies !(#[trigger] sub[tt]).tags.contains(t@) by {
                                if sub[tt].tags.contains(t@) {
                                    let l = choose|l: int|
                                        0 <= l < sub[tt].tags.len() && sub[tt].tags[l] == t@;
                                    assert(dv[tt].tags[l] == t@);
                                    assert(label_keys_of(groups@).contains(dv[tt].tags[l]));
                                }
                            }
                        }
                        lemma_sum_with_tag_absent(sub, t@);
                    }
                    let ghost oldg = groups@;
                    groups.push((t.duplicate(), dur));
                    proof {
                        assert(groups@.drop_last() =~= oldg);
                        assert(label_keys_of(groups@) =~= label_keys_of(oldg).push(t@));
                        assert forall|y: Seq<char>| #[trigger] label_keys_of(groups@).contains(y)
                            <==> label_keys_of(oldg).contains(y) || y == t@ by {
                            lemma_contains_push(label_keys_of(oldg), t@, y);
                        }
                    }
                }
            }
            proof {
                if pr.contains(tags_e[j as int]) {
                    assert(distinct_count(pr2) == distinct_count(pr));
                } else {
                    assert(distinct_count(pr2) == distinct_count(pr) + 1);
                    assert(distinct_count(pr2) * m == distinct_count(pr) * m + m)
                        by (nonlinear_arith)
                        requires
                            distinct_count(pr2) == distinct_count(pr) + 1,
                    ;
                }
            }
            j = j + 1;
        }
        proof {
            assert(tags_e.subrange(0, n_tags as int) =~= tags_e);
            lemma_label_keys_snoc(Seq::<Seq<char>>::empty(), sub, dv[i as int]);
            assert(sub.push(dv[i as int]) =~= sub2);
            assert(label_keys_of(groups@) == label_keys(Seq::<Seq<char>>::empty(), sub2));
            assert(forall|u: int|
                0 <= u < groups@.len() ==> #[trigger] sum_with_tag(sub2, groups@[u].0@)
                    == sum_with_tag(sub, groups@[u].0@) + (if tags_e.contains(groups@[u].0@) {
                    m
                } else {
                    0int
                }));
            assert(sum_tagged(sub2) == sum_tagged(sub) + distinct_count(tags_e) * m);
            assert forall|t: int, l: int|
                0 <= t < i + 1 && 0 <= l < dv[t].tags.len() implies label_keys_of(
                groups@,
            ).contains(#[trigger] dv[t].tags[l]) by {
                if t == i {
                    assert(tags_e.contains(dv[t].tags[l])) by {
                        assert(tags_e[l] == dv[t].tags[l]);
                    }
                    lemma_dedup_props(keys0, tags_e);
                }
            }
        }
        i = i + 1;
    }
    proof {
        assert(dv.subrange(0, dv.len() as int) =~= dv);
    }
    groups
}

/// Whether `t` occurs among the first `j` tags.
fn tag_in_prefix(tags: &Tags, j: usize, t: &Tag) -> (r: bool)
    requires
        j <= tags@.len(),
        tags@.len() == tags.0@.len(),
    ensures
        r == tags@.subrange(0, j as int).contains(t@),
{
    let mut i: usize = 0;
    while i < j
        invariant
            i <= j <= tags@.len() == tags.0@.len(),
            forall|l: int| 0 <= l < i ==> tags@[l] != t@,
        decreases j - i,
    {
        if tags.0[i].eq(t) {
            proof {
                assert(tags@.subrange(0, j as int)[i as int] == t@);
            }
            return true;
        }
        i = i + 1;
    }
    proof {
        assert(forall|l: int| 0 <= l < j ==> tags@.subrange(0, j as int)[l] == tags@[l]);
    }
    false
}

/// How much the label fan-out adds per entry: one extra copy of the
/// duration for every distinct label beyond the first, and one copy
/// lost for an entry with no label at all.
pub open spec fn sum_excess(s: Seq<EntryV>) -> int
    decreases s.len(),
{
    if s.len() == 0 {
        0
    } else {
        sum_excess(s.drop_last()) + (distinct_count(s.last().tags) - 1) * s.last().minutes
    }
}

/// Label fan-out accounting: the label buckets together hold the grand
/// total plus the surplus of entries carrying several distinct labels,
/// less the full duration of entries carrying none.
pub proof fn lemma_label_fanout(s: Seq<EntryV>)
    ensures
        sum_tagged(s) == sum_minutes(s) + sum_excess(s),
    decreases s.len(),
{
    if s.len() > 0 {
        lemma_label_fanout(s.drop_last());
        let dc = distinct_count(s.last().tags);
        let m = s.last().minutes;
        assert(dc * m == m + (dc - 1) * m) by (nonlinear_arith);
    }
}

/// Filtering keeps no more minutes than were there, and no debt.
proof fn lemma_sum_filter_le(s: Seq<EntryV>, p: spec_fn(EntryV) -> bool)
    requires
        forall|j: int| 0 <= j < s.len() ==> (#[trigger] s[j]).minutes >= 0,
    ensures
        0 <= sum_minutes(s.filter(p)) <= sum_minutes(s),
    decreases s.len(),
{
    reveal_with_fuel(Seq::<EntryV>::filter, 1);
    if s.len() == 0 {
    } else {
        assert(forall|j: int|
            0 <= j < s.drop_last().len() ==> (#[trigger] s.drop_last()[j]).minutes >= 0);
        lemma_sum_filter_le(s.drop_last(), p);
        if p(s.last()) {
            let t = s.drop_last().filter(p).push(s.last());
            assert(t.drop_last() =~= s.drop_last().filter(p));
            assert(t.last() == s.last());
        }
    }
}

/// A finished report: the filtered and date-sorted entries, the groups
/// the query asked for (at most one of the two kinds is in use), and
/// the grand total.
pub struct Report {
    pub entries: Vec<Entry>,
    pub date_groups: Vec<(Date, Duration)>,
    pub label_groups: Vec<(Tag, Duration)>,
    pub total: Duration,
}

impl Report {
    /// Everything in the report is well formed.
    pub open spec fn wf(&self) -> bool {
        &&& forall|i: int| 0 <= i < self.entries@.len() ==> (#[trigger] self.entries@[i]).wf()
        &&& forall|u: int|
            0 <= u < self.date_groups@.len() ==> (#[trigger] self.date_groups@[u].0).wf() && (
            self.date_groups@[u].1).valid()
        &&& forall|u: int|
            0 <= u < self.label_groups@.len() ==> (#[trigger] self.label_groups@[u].1).valid()
        &&& self.total.valid()
    }
}

/// Runs the whole pipeline: keep the entries the query admits, sort
/// them by date keeping log order within a day, bucket them as the
/// query asks, and total their durations. The grand total counts
/// exactly the entries that pass both filters; date-keyed buckets
/// conserve it; label buckets fan it out per label.
pub fn report(entries: &Vec<Entry>, q: &ReportQuery) -> (r: Report)
    requires
        q.wf(),
        forall|i: int| 0 <= i < entries@.len() ==> (#[trigger] entries@[i]).wf(),
        sum_minutes(entries.deep_view()) <= i64::MAX,
    ensures
        r.wf(),
        sorted_by_date(r.entries.deep_view()),
        forall|k: int| #[trigger] r.entries.deep_view().filter(on_day(k))
            == entries.deep_view().filter(passes(q@)).filter(on_day(k)),
        sum_minutes(r.entries.deep_view()) == sum_minutes(entries.deep_view().filter(passes(q@))),
        r.total@ == sum_minutes(entries.deep_view().filter(passes(q@))),
        match q@.group_by {
            None => r.date_groups@.len() == 0 && r.label_groups@.len() == 0,
            Some(GroupBy::Label) => {
                &&& r.date_groups@.len() == 0
                &&& sum_label_groups(r.label_groups@) == sum_tagged(r.entries.deep_view())
                &&& forall|u: int|
                    0 <= u < r.label_groups@.len() ==> (#[trigger] r.label_groups@[u].1)@
                        == sum_with_tag(r.entries.deep_view(), r.label_groups@[u].0@)
                &&& label_keys_of(r.label_groups@) == label_keys(
                    Seq::<Seq<char>>::empty(),
                    r.entries.deep_view(),
                )
                &&& forall|t: int, u: int|
                    0 <= t < u < r.label_groups@.len() ==> r.label_groups@[t].0@
                        != r.label_groups@[u].0@
            },
            Some(g) => {
                &&& r.label_groups@.len() == 0
                &&& sum_date_groups(r.date_groups@) == r.total@
                &&& forall|u: int|
                    0 <= u < r.date_groups@.len() ==> (#[trigger] r.date_groups@[u].1)@
                        == sum_where(g, r.entries.deep_view(), r.date_groups@[u].0.day_number())
                &&& forall|t: int, u: int|
                    0 <= t < u < r.date_groups@.len() ==> r.date_groups@[t].0.day_number()
                        < r.date_groups@[u].0.day_number()
            },
        },
{
    let ghost dv = entries.deep_view();
    proof {
        assert(forall|j: int| 0 <= j < dv.len() ==> (#[trigger] dv[j]).minutes >= 0) by {
            assert(forall|j: int|
                0 <= j < dv.len() ==> dv[j] == (#[trigger] entries@[j]).deep_view());
        }
        lemma_sum_filter_le(dv, passes(q@));
    }
    let filtered = filter_entries(entries, q);
    let total = total_duration(&filtered);
    let sorted = sort_entries(filtered);
    let mut date_groups: Vec<(Date, Duration)> = Vec::new();
    let mut label_groups: Vec<(Tag, Duration)> = Vec::new();
    match q.group_by {
        None => {},
        Some(GroupBy::Label) => {
            label_groups = group_by_label(&sorted);
        },
        Some(g) => {
            date_groups = group_by_date(&sorted, g);
        },
    }
    Report { entries: sorted, date_groups, label_groups, total }
}

/// The line a report closes with.
pub open spec fn spec_total_line(total: int) -> Seq<char> {
    "Total duration: "@ + crate::duration::spec_format_duration(total)
}

/// Writes a report as lines of text: each kept entry in its canonical
/// encoding, then one line per group — its key, a space, its subtotal
/// — and last the grand total. At most one of the two group lists has
/// lines; an ungrouped report has none.
pub fn render_report(rep: &Report) -> (lines: Vec<String>)
    requires
        rep.wf(),
    ensures
        lines@.len() == rep.entries@.len() + rep.date_groups@.len() + rep.label_groups@.len() + 1,
        forall|i: int|
            0 <= i < rep.entries@.len() ==> (#[trigger] lines@[i])@ == crate::entry::spec_encode(
                rep.entries@[i]@.date,
                rep.entries@[i]@.minutes,
                rep.entries@[i]@.note,
            ),
        forall|u: int|
            0 <= u < rep.date_groups@.len() ==> (#[trigger] lines@[rep.entries@.len() + u])@
                == crate::dates::spec_format_date(rep.date_groups@[u].0) + seq![' ']
                + crate::duration::spec_format_duration((rep.date_groups@[u].1)@),
        forall|u: int|
            0 <= u < rep.label_groups@.len() ==> (#[trigger] lines@[rep.entries@.len()
                + rep.date_groups@.len() + u])@ == (rep.label_groups@[u].0)@ + seq![' ']
                + crate::duration::spec_format_duration((rep.label_groups@[u].1)@),
        lines@.last()@ == spec_total_line(rep.total@),
{
    proof {
        reveal_strlit(" ");
        reveal_strlit("Total duration: ");
    }
    let mut lines: Vec<String> = Vec::new();
    let mut i: usize = 0;
    while i < rep.entries.len()
        invariant
            i <= rep.entries@.len(),
            rep.wf(),
            lines@.len() == i,
            forall|t: int|
                0 <= t < i ==> (#[trigger] lines@[t])@ == crate::entry::spec_encode(
                    rep.entries@[t]@.date,
                    rep.entries@[t]@.minutes,
                    rep.entries@[t]@.note,
                ),
        decreases rep.entries@.len() - i,
    {
        lines.push(rep.entries[i].encode());
        i = i + 1;
    }
    let n1 = rep.entries.len();
    let mut u: usize = 0;
    while u < rep.date_groups.len()
        invariant
            u <= rep.date_groups@.len(),
            rep.wf(),
            n1 == rep.entries@.len(),
            lines@.len() == n1 + u,
            forall|t: int|
                0 <= t < n1 ==> (#[trigger] lines@[t])@ == crate::entry::spec_encode(
                    rep.entries@[t]@.date,
                    rep.entries@[t]@.minutes,
                    rep.entries@[t]@.note,
                ),
            forall|t: int|
                0 <= t < u ==> (#[trigger] lines@[n1 + t])@ == crate::dates::spec_format_date(
                    rep.date_groups@[t].0,
                ) + seq![' '] + crate::duration::spec_format_duration((rep.date_groups@[t].1)@),
        decreases rep.date_groups@.len() - u,
    {
        proof {
            reveal_strlit(" ");
        }
        let mut line = rep.date_groups[u].0.format();
        line.append(" ");
        let d = rep.date_groups[u].1.format();
        line.append(d.as_str());
        proof {
            assert(line@ =~= crate::dates::spec_format_date(rep.date_groups@[u as int].0) + seq![
                ' ',
            ] + crate::duration::spec_format_duration((rep.date_groups@[u as int].1)@));
        }
        lines.push(line);
        u = u + 1;
    }
    let n2 = lines.len();
    let mut w: usize = 0;
    while w < rep.label_groups.len()
        invariant
            w <= rep.label_groups@.len(),
            rep.wf(),
            n1 == rep.entries@.len(),
            n2 == n1 + rep.date_groups@.len(),
            lines@.len() == n2 + w,
            forall|t: int|
                0 <= t < n1 ==> (#[trigger] lines@[t])@ == crate::entry::spec_encode(
                    rep.entries@[t]@.date,
                    rep.entries@[t]@.minutes,
                    rep.entries@[t]@.note,
                ),
            forall|t: int|
                0 <= t < rep.date_groups@.len() ==> (#[trigger] lines@[n1 + t])@
                    == crate::dates::spec_format_date(rep.date_groups@[t].0) + seq![' ']
                    + crate::duration::spec_format_duration((rep.date_groups@[t].1)@),
            forall|t: int|
                0 <= t < w ==> (#[trigger] lines@[n2 + t])@ == (rep.label_groups@[t].0)@ + seq![
                    ' ',
                ] + crate::duration::spec_format_duration((rep.label_groups@[t].1)@),
        decreases rep.label_groups@.len() - w,
    {
        proof {
            reveal_strlit(" ");
        }
        let mut line = match &rep.label_groups[w].0 {
            Tag::Label(s) => s.clone(),
        };
        line.append(" ");
        let d = rep.label_groups[w].1.format();
        line.append(d.as_str());
        proof {
            assert(line@ =~= (rep.label_groups@[w as int].0)@ + seq![' ']
                + crate::duration::spec_format_duration((rep.label_groups@[w as int].1)@));
        }
        lines.push(line);
        w = w + 1;
    }
    let mut total_line = String::new();
    total_line.append("Total duration: ");
    let d = rep.total.format();
    total_line.append(d.as_str());
    proof {
        assert(total_line@ =~= spec_total_line(rep.total@));
    }
    lines.push(total_line);
    lines
}

} // verus!
