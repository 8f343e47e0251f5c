//! Per-date outcome aggregation.
//!
//! The aggregator collects one outcome per date — a record list, or the
//! error that stopped that date — keyed and ordered by date, first outcome
//! per date wins.  Its state is therefore a function of the set of outcomes
//! fed in, not of their arrival order.  `finalize` merges the successful
//! dates' records in date order, collapses duplicate (title, nomination
//! date) keys keeping the first seen, and sorts by (nomination date, title).

use vstd::prelude::*;
use crate::date::{Date, day_index, day_index_of, lemma_day_index_injective, valid_date};
use crate::records::{
    dedup, dedup_records, DeletionRecord, recs_dated, recs_view, RecordV, sort_records, sort_recs,
};

verus! {

/// Why fetching a date's listing failed.
#[derive(PartialEq, Eq, Structural, Clone, Copy, Debug)]
pub enum FetchError {
    NotFound,
    NetworkFailure,
    RateLimited,
}

/// Why parsing a fetched listing failed.
#[derive(PartialEq, Eq, Structural, Clone, Copy, Debug)]
pub enum ParseError {
    MalformedMarkup,
    UnexpectedSchema,
}

/// What stopped one date: its fetch or its parse.
#[derive(PartialEq, Eq, Structural, Clone, Copy, Debug)]
pub enum DateError {
    Fetch(FetchError),
    Parse(ParseError),
}

/// The outcome of fetching and parsing one date's listing.
pub enum DateOutcome {
    Records(Vec<DeletionRecord>),
    Failed(DateError),
}

/// The mathematical shadow of an outcome.
pub ghost enum OutcomeV {
    Records(Seq<RecordV>),
    Failed(DateError),
}

impl View for DateOutcome {
    type V = OutcomeV;

    open spec fn view(&self) -> OutcomeV {
        match self {
            DateOutcome::Records(rs) => OutcomeV::Records(recs_view(rs@)),
            DateOutcome::Failed(e) => OutcomeV::Failed(*e),
        }
    }
}

/// A successful outcome's records all carry valid nomination dates.
pub open spec fn outcome_dated(o: OutcomeV) -> bool {
    match o {
        OutcomeV::Records(rs) => recs_dated(rs),
        OutcomeV::Failed(_) => true,
    }
}

pub open spec fn entries_view(s: Seq<(Date, DateOutcome)>) -> Seq<(Date, OutcomeV)> {
    s.map_values(|e: (Date, DateOutcome)| (e.0, e.1@))
}

/// Entries hold valid, strictly ascending dates and well-dated records.
pub open spec fn wf_entries(s: Seq<(Date, OutcomeV)>) -> bool {
    &&& forall|i: int| 0 <= i < s.len() ==> valid_date((#[trigger] s[i]).0)
    &&& forall|i: int| 0 <= i < s.len() ==> outcome_dated((#[trigger] s[i]).1)
    &&& forall|i: int| 0 <= i < s.len() - 1 ==> day_index((#[trigger] s[i]).0) < day_index(s[i + 1].0)
}

/// Is some entry keyed by `d`?
pub open spec fn has_date(s: Seq<(Date, OutcomeV)>, d: Date) -> bool {
    exists|i: int| 0 <= i < s.len() && (#[trigger] s[i]).0 == d
}

/// Where a new date sorts into the entries.
pub open spec fn insert_pos(s: Seq<(Date, OutcomeV)>, d: Date) -> int
    decreases s.len(),
{
    if s.len() == 0 {
        0
    } else if day_index(s[0].0) < day_index(d) {
        1 + insert_pos(s.drop_first(), d)
    } else {
        0
    }
}

/// One outcome's effect on the entries: ignored when the date is already
/// present, else inserted at its ordered position.
pub open spec fn spec_record(s: Seq<(Date, OutcomeV)>, d: Date, o: OutcomeV) -> Seq<
    (Date, OutcomeV),
> {
    if has_date(s, d) {
        s
    } else {
        s.insert(insert_pos(s, d), (d, o))
    }
}

/// The found position is the ordered insertion position.
proof fn lemma_insert_pos_unique(s: Seq<(Date, OutcomeV)>, d: Date, j: int)
    requires
        0 <= j <= s.len(),
        forall|t: int| 0 <= t < j ==> day_index((#[trigger] s[t]).0) < day_index(d),
        j < s.len() ==> day_index(s[j].0) >= day_index(d),
    ensures
        insert_pos(s, d) == j,
    decreases j,
{
    if j == 0 {
    } else {
        assert(day_index(s[0].0) < day_index(d));
        assert forall|t: int| 0 <= t < j - 1 implies day_index(
            (#[trigger] s.drop_first()[t]).0,
        ) < day_index(d) by {
            assert(s.drop_first()[t] == s[t + 1]);
        }
        assert(j - 1 < s.drop_first().len() ==> day_index(s.drop_first()[j - 1].0) >= day_index(d));
        lemma_insert_pos_unique(s.drop_first(), d, j - 1);
    }
}

/// Inserting a fresh date at its ordered position keeps entries well formed.
proof fn lemma_insert_wf(s: Seq<(Date, OutcomeV)>, j: int, d: Date, o: OutcomeV)
    requires
        wf_entries(s),
        valid_date(d),
        outcome_dated(o),
        0 <= j <= s.len(),
        forall|t: int| 0 <= t < j ==> day_index((#[trigger] s[t]).0) < day_index(d),
        j < s.len() ==> day_index(s[j].0) > day_index(d),
    ensures
        wf_entries(s.insert(j, (d, o))),
{
    let ns = s.insert(j, (d, o));
    assert forall|t: int| 0 <= t < ns.len() - 1 implies day_index((#[trigger] ns[t]).0)
        < day_index(ns[t + 1].0) by {
        if t + 1 < j {
            assert(ns[t] == s[t] && ns[t + 1] == s[t + 1]);
        } else if t + 1 == j {
            assert(ns[t] == s[t] && ns[t + 1] == (d, o));
        } else if t == j {
            assert(ns[t] == (d, o) && ns[t + 1] == s[t]);
        } else {
            assert(ns[t] == s[t - 1] && ns[t + 1] == s[t]);
        }
    }
    assert forall|t: int| 0 <= t < ns.len() implies valid_date((#[trigger] ns[t]).0)
        && outcome_dated(ns[t].1) by {
        if t < j {
            assert(ns[t] == s[t]);
        } else if t == j {
        } else {
            assert(ns[t] == s[t - 1]);
        }
    }
}

/// A date later than every entry's inserts at the end.
pub proof fn lemma_insert_pos_at_end(s: Seq<(Date, OutcomeV)>, d: Date)
    requires
        forall|t: int| 0 <= t < s.len() ==> day_index((#[trigger] s[t]).0) < day_index(d),
    ensures
        insert_pos(s, d) == s.len(),
{
    lemma_insert_pos_unique(s, d, s.len() as int);
}

/// Strict ascent between adjacent entries carries to any pair.
pub proof fn lemma_entries_ascending(s: Seq<(Date, OutcomeV)>, i: int, j: int)
    requires
        forall|t: int| 0 <= t < s.len() - 1 ==> day_index((#[trigger] s[t]).0) < day_index(s[t + 1].0),
        0 <= i < j < s.len(),
    ensures
        day_index(s[i].0) < day_index(s[j].0),
    decreases j - i,
{
    if i + 1 < j {
        lemma_entries_ascending(s, i, j - 1);
    }
}

/// Mapping to views commutes with insertion.
proof fn lemma_entries_view_insert(v: Seq<(Date, DateOutcome)>, j: int, x: (Date, DateOutcome))
    requires
        0 <= j <= v.len(),
    ensures
        entries_view(v.insert(j, x)) == entries_view(v).insert(j, (x.0, x.1@)),
{
    let a = entries_view(v.insert(j, x));
    let b = entries_view(v).insert(j, (x.0, x.1@));
    assert forall|t: int| 0 <= t < a.len() implies a[t] == b[t] by {
        if t < j {
            assert(v.insert(j, x)[t] == v[t]);
        } else if t == j {
            assert(v.insert(j, x)[t] == x);
        } else {
            assert(v.insert(j, x)[t] == v[t - 1]);
            assert(entries_view(v)[t - 1] == (v[t - 1].0, v[t - 1].1@));
        }
    }
    assert(a =~= b);
}

/// A scan that stopped strictly between earlier and later dates found a
/// fresh date and its ordered insertion position.
proof fn lemma_fresh_insert_position(s: Seq<(Date, OutcomeV)>, d: Date, j: int)
    requires
        wf_entries(s),
        valid_date(d),
        0 <= j <= s.len(),
        forall|t: int| 0 <= t < j ==> day_index((#[trigger] s[t]).0) < day_index(d),
        j < s.len() ==> day_index(s[j].0) >= day_index(d),
        j < s.len() ==> s[j].0 != d,
    ensures
        !has_date(s, d),
        insert_pos(s, d) == j,
        j < s.len() ==> day_index(s[j].0) > day_index(d),
{
    if j < s.len() {
        if day_index(s[j].0) == day_index(d) {
            lemma_day_index_injective(s[j].0, d);
        }
    }
    assert forall|t: int| 0 <= t < s.len() implies (#[trigger] s[t]).0 != d by {
        if t < j {
            assert(day_index(s[t].0) < day_index(d));
        } else if t == j {
        } else {
            lemma_entries_ascending(s, j, t);
            if s[t].0 == d {
                assert(day_index(s[t].0) == day_index(d));
            }
        }
    }
    if has_date(s, d) {
        let t = choose|t: int| 0 <= t < s.len() && s[t].0 == d;
        assert(false);
    }
    lemma_insert_pos_unique(s, d, j);
}

/// One per-date success or failure, merged into one ordered record set.
pub struct Aggregator {
    entries: Vec<(Date, DateOutcome)>,
}

impl View for Aggregator {
    type V = Seq<(Date, OutcomeV)>;

    closed spec fn view(&self) -> Seq<(Date, OutcomeV)> {
        entries_view(self.entries@)
    }
}

impl Aggregator {
    pub open spec fn wf(&self) -> bool {
        wf_entries(self@)
    }

    /// An empty aggregator.
    pub fn new() -> (r: Aggregator)
        ensures
            r@ == Seq::<(Date, OutcomeV)>::empty(),
            r.wf(),
    {
        let r = Aggregator { entries: Vec::new() };
        proof {
            assert(r@ =~= Seq::<(Date, OutcomeV)>::empty());
        }
        r
    }

    /// Records one date's outcome; the first outcome for a date wins.
    fn record_outcome(&mut self, date: Date, outcome: DateOutcome)
        requires
            old(self).wf(),
            valid_date(date),
            outcome_dated(outcome@),
        ensures
            final(self).wf(),
            final(self)@ == spec_record(old(self)@, date, outcome@),
    {
        let ghost s = self@;
        let di = day_index_of(&date);
        let mut j: usize = 0;
        while j < self.entries.len()
            invariant
                j <= self.entries.len(),
                self@ == s,
                wf_entries(s),
                valid_date(date),
                di == day_index(date),
                forall|t: int| 0 <= t < j ==> day_index((#[trigger] s[t]).0) < di,
            ensures
                j <= self.entries.len(),
                self@ == s,
                forall|t: int| 0 <= t < j ==> day_index((#[trigger] s[t]).0) < di,
                j < self.entries.len() ==> day_index(s[j as int].0) >= di,
                j < self.entries.len() && day_index(s[j as int].0) == di ==> s[j as int].0 == date,
            decreases self.entries.len() - j,
        {
            let ed: Date = self.entries[j].0;
            proof {
                assert(s[j as int].0 == ed);
                assert(valid_date(ed));
            }
            let ei = day_index_of(&ed);
            if ei == di {
                proof {
                    lemma_day_index_injective(ed, date);
                }
                break ;
            }
            if ei > di {
                break ;
            }
            j = j + 1;
        }
        if j < self.entries.len() {
            let ed: Date = self.entries[j].0;
            proof {
                assert(s[j as int].0 == ed);
            }
            if ed == date {
                proof {
                    assert(s[j as int].0 == date);
                    assert(has_date(s, date));
                }
                return ;
            }
        }
        proof {
            lemma_fresh_insert_position(s, date, j as int);
        }
        let ghost epre = self.entries@;
        self.entries.insert(j, (date, outcome));
        proof {
            lemma_entries_view_insert(epre, j as int, (date, outcome));
            assert(self@ == s.insert(j as int, (date, outcome@)));
            lemma_insert_wf(s, j as int, date, outcome@);
        }
    }

    /// Records a date's parsed records; the first outcome for a date wins.
    pub fn record_success(&mut self, date: Date, records: Vec<DeletionRecord>)
        requires
            old(self).wf(),
            valid_date(date),
            recs_dated(recs_view(records@)),
        ensures
            final(self).wf(),
            final(self)@ == spec_record(
                old(self)@,
                date,
                OutcomeV::Records(recs_view(records@)),
            ),
    {
        self.record_outcome(date, DateOutcome::Records(records));
    }

    /// Records a date's failure; the first outcome for a date wins.
    pub fn record_failure(&mut self, date: Date, error: DateError)
        requires
            old(self).wf(),
            valid_date(date),
        ensures
            final(self).wf(),
            final(self)@ == spec_record(old(self)@, date, OutcomeV::Failed(error)),
    {
        self.record_outcome(date, DateOutcome::Failed(error));
    }
}

/// No two outcomes are for the same date.
pub open spec fn distinct_dates(s: Seq<(Date, OutcomeV)>) -> bool {
    forall|i: int, j: int| 0 <= i < j < s.len() ==> (#[trigger] s[i]).0 != (#[trigger] s[j]).0
}

/// The entries reached by recording the outcomes one by one, left to right.
pub open spec fn spec_feed(s: Seq<(Date, OutcomeV)>) -> Seq<(Date, OutcomeV)>
    decreases s.len(),
{
    if s.len() == 0 {
        Seq::empty()
    } else {
        spec_record(spec_feed(s.drop_last()), s.last().0, s.last().1)
    }
}

/// Where a fresh date inserts: everything before is earlier, the rest later.
proof fn lemma_insert_pos_props(s: Seq<(Date, OutcomeV)>, d: Date)
    requires
        forall|t: int| 0 <= t < s.len() - 1 ==> day_index((#[trigger] s[t]).0) < day_index(s[t + 1].0),
    ensures
        0 <= insert_pos(s, d) <= s.len(),
        forall|t: int| 0 <= t < insert_pos(s, d) ==> day_index((#[trigger] s[t]).0) < day_index(d),
        insert_pos(s, d) < s.len() ==> day_index(s[insert_pos(s, d)].0) >= day_index(d),
    decreases s.len(),
{
    if s.len() > 0 && day_index(s[0].0) < day_index(d) {
        assert forall|t: int| 0 <= t < s.drop_first().len() - 1 implies day_index(
            (#[trigger] s.drop_first()[t]).0,
        ) < day_index(s.drop_first()[t + 1].0) by {
            assert(s.drop_first()[t] == s[t + 1] && s.drop_first()[t + 1] == s[t + 2]);
        }
        lemma_insert_pos_props(s.drop_first(), d);
        let p = insert_pos(s.drop_first(), d);
        assert forall|t: int| 0 <= t < 1 + p implies day_index((#[trigger] s[t]).0) < day_index(
            d,
        ) by {
            if t > 0 {
                assert(s.drop_first()[t - 1] == s[t]);
            }
        }
        if 1 + p < s.len() {
            assert(s.drop_first()[p] == s[p + 1]);
        }
    }
}

/// What an insertion holds: the old entries and the new pair.
proof fn lemma_insert_membership(s: Seq<(Date, OutcomeV)>, j: int, x: (Date, OutcomeV))
    requires
        0 <= j <= s.len(),
    ensures
        forall|p: (Date, OutcomeV)| s.insert(j, x).contains(p) <==> (s.contains(p) || p == x),
{
    let ns = s.insert(j, x);
    assert forall|p: (Date, OutcomeV)| ns.contains(p) <==> (s.contains(p) || p == x) by {
        if ns.contains(p) {
            let t = choose|t: int| 0 <= t < ns.len() && ns[t] == p;
            if t < j {
                assert(s[t] == p);
            } else if t == j {
            } else {
                assert(s[t - 1] == p);
            }
        }
        if s.contains(p) {
            let t = choose|t: int| 0 <= t < s.len() && s[t] == p;
            if t < j {
                assert(ns[t] == p);
            } else {
                assert(ns[t + 1] == p);
            }
        }
        if p == x {
            assert(ns[j] == p);
        }
    }
}

/// Recording keeps entries well formed, and adds exactly the new pair when
/// its date is fresh.
proof fn lemma_spec_record_props(s: Seq<(Date, OutcomeV)>, d: Date, o: OutcomeV)
    requires
        wf_entries(s),
        valid_date(d),
        outcome_dated(o),
    ensures
        wf_entries(spec_record(s, d, o)),
        forall|p: (Date, OutcomeV)|
            spec_record(s, d, o).contains(p) <==> (s.contains(p) || (!has_date(s, d) && p == (
            d,
            o,
            ))),
{
    if !has_date(s, d) {
        lemma_insert_pos_props(s, d);
        let j = insert_pos(s, d);
        if j < s.len() {
            if day_index(s[j].0) == day_index(d) {
                lemma_day_index_injective(s[j].0, d);
                assert(s[j].0 == d);
                assert(has_date(s, d));
            }
        }
        lemma_insert_wf(s, j, d, o);
        lemma_insert_membership(s, j, (d, o));
    }
}

/// Feeding distinct-dated outcomes builds well-formed entries holding
/// exactly the fed pairs.
#[verifier::rlimit(50)]
proof fn lemma_feed_props(s: Seq<(Date, OutcomeV)>)
    requires
        forall|i: int| 0 <= i < s.len() ==> valid_date((#[trigger] s[i]).0),
        forall|i: int| 0 <= i < s.len() ==> outcome_dated((#[trigger] s[i]).1),
        distinct_dates(s),
    ensures
        wf_entries(spec_feed(s)),
        forall|p: (Date, OutcomeV)| spec_feed(s).contains(p) <==> s.contains(p),
    decreases s.len(),
{
    if s.len() == 0 {
        assert forall|p: (Date, OutcomeV)| spec_feed(s).contains(p) <==> s.contains(p) by {
            if s.contains(p) {
                let t = choose|t: int| 0 <= t < s.len() && s[t] == p;
            }
        }
    } else {
        let front = s.drop_last();
        assert forall|i: int| 0 <= i < front.len() implies valid_date((#[trigger] front[i]).0)
            && outcome_dated(front[i].1) by {
            assert(front[i] == s[i]);
        }
        assert forall|i: int, j: int| 0 <= i < j < front.len() implies (#[trigger] front[i]).0 != (
        #[trigger] front[j]).0 by {
            assert(front[i] == s[i] && front[j] == s[j]);
        }
        lemma_feed_props(front);
        let fs = spec_feed(front);
        let d = s.last().0;
        let o = s.last().1;
        if has_date(fs, d) {
            let t = choose|t: int| 0 <= t < fs.len() && fs[t].0 == d;
            assert(fs.contains(fs[t]));
            assert(front.contains(fs[t]));
            let u = choose|u: int| 0 <= u < front.len() && front[u] == fs[t];
            assert(s[u] == front[u]);
            assert(s[u].0 == s[s.len() - 1].0);
            assert(false);
        }
        lemma_spec_record_props(fs, d, o);
        assert forall|p: (Date, OutcomeV)| spec_feed(s).contains(p) <==> s.contains(p) by {
            assert(spec_feed(s).contains(p) <==> (fs.contains(p) || (!has_date(fs, d) && p == (
            d,
            o,
            ))));
            assert(fs.contains(p) <==> front.contains(p));
            if spec_feed(s).contains(p) {
                if front.contains(p) {
                    let t = choose|t: int| 0 <= t < front.len() && front[t] == p;
                    assert(front[t] == s[t]);
                    assert(s[t] == p);
                } else {
                    assert(p == (d, o));
                    assert(s[s.len() - 1] == p);
                }
            }
            if s.contains(p) {
                let t = choose|t: int| 0 <= t < s.len() && s[t] == p;
                if t < s.len() - 1 {
                    assert(front[t] == s[t]);
                    assert(front[t] == p);
                    assert(front.contains(p));
                } else {
                    assert(p == (d, o));
                }
            }
        }
    }
}

/// The last entry is not repeated, so dropping it drops exactly it.
proof fn lemma_wf_drop_last_membership(a: Seq<(Date, OutcomeV)>)
    requires
        wf_entries(a),
        a.len() > 0,
    ensures
        forall|p: (Date, OutcomeV)|
            a.drop_last().contains(p) <==> (a.contains(p) && p != a.last()),
{
    assert forall|p: (Date, OutcomeV)|
        a.drop_last().contains(p) <==> (a.contains(p) && p != a.last()) by {
        if a.drop_last().contains(p) {
            let t = choose|t: int| 0 <= t < a.drop_last().len() && a.drop_last()[t] == p;
            assert(a[t] == p);
            if p == a.last() {
                lemma_entries_ascending(a, t, a.len() - 1);
            }
        }
        if a.contains(p) && p != a.last() {
            let t = choose|t: int| 0 <= t < a.len() && a[t] == p;
            assert(t < a.len() - 1);
            assert(a.drop_last()[t] == p);
        }
    }
}

/// Well-formed entries are determined by the pairs they hold.
proof fn lemma_wf_entries_unique(a: Seq<(Date, OutcomeV)>, b: Seq<(Date, OutcomeV)>)
    requires
        wf_entries(a),
        wf_entries(b),
        forall|p: (Date, OutcomeV)| a.contains(p) <==> b.contains(p),
    ensures
        a == b,
    decreases a.len(),
{
    if a.len() == 0 {
        if b.len() > 0 {
            assert(b.contains(b[0]));
            assert(a.contains(b[0]));
            let t = choose|t: int| 0 <= t < a.len() && a[t] == b[0];
            assert(false);
        }
        assert(a =~= b);
    } else {
        assert(a.contains(a.last())) by {
            assert(a[a.len() - 1] == a.last());
        }
        assert(b.contains(a.last()));
        let j = choose|j: int| 0 <= j < b.len() && b[j] == a.last();
        if j < b.len() - 1 {
            lemma_entries_ascending(b, j, b.len() - 1);
            assert(b.contains(b.last())) by {
                assert(b[b.len() - 1] == b.last());
            }
            assert(a.contains(b.last()));
            let t = choose|t: int| 0 <= t < a.len() && a[t] == b.last();
            if t < a.len() - 1 {
                lemma_entries_ascending(a, t, a.len() - 1);
            }
            assert(day_index(a[t].0) <= day_index(a.last().0));
            assert(false);
        }
        assert(b.last() == a.last());
        lemma_wf_drop_last_membership(a);
        lemma_wf_drop_last_membership(b);
        let fa = a.drop_last();
        let fb = b.drop_last();
        assert forall|i: int| 0 <= i < fa.len() implies valid_date((#[trigger] fa[i]).0)
            && outcome_dated(fa[i].1) by {
            assert(fa[i] == a[i]);
        }
        assert forall|i: int| 0 <= i < fa.len() - 1 implies day_index((#[trigger] fa[i]).0)
            < day_index(fa[i + 1].0) by {
            assert(fa[i] == a[i] && fa[i + 1] == a[i + 1]);
        }
        assert forall|i: int| 0 <= i < fb.len() implies valid_date((#[trigger] fb[i]).0)
            && outcome_dated(fb[i].1) by {
            assert(fb[i] == b[i]);
        }
        assert forall|i: int| 0 <= i < fb.len() - 1 implies day_index((#[trigger] fb[i]).0)
            < day_index(fb[i + 1].0) by {
            assert(fb[i] == b[i] && fb[i + 1] == b[i + 1]);
        }
        assert forall|p: (Date, OutcomeV)| fa.contains(p) <==> fb.contains(p) by {
            assert(fa.contains(p) <==> (a.contains(p) && p != a.last()));
            assert(fb.contains(p) <==> (b.contains(p) && p != b.last()));
        }
        lemma_wf_entries_unique(fa, fb);
        assert(a =~= fa.push(a.last()));
        assert(b =~= fb.push(b.last()));
    }
}

/// Feeding the same set of per-date outcomes in any order builds the same
/// entries, so the finalized result is the same: the aggregator's state is
/// a function of which outcomes were fed, not of their arrival order.
pub proof fn lemma_feed_order_irrelevant(s: Seq<(Date, OutcomeV)>, t: Seq<(Date, OutcomeV)>)
    requires
        forall|i: int| 0 <= i < s.len() ==> valid_date((#[trigger] s[i]).0),
        forall|i: int| 0 <= i < s.len() ==> outcome_dated((#[trigger] s[i]).1),
        distinct_dates(s),
        t.to_multiset() == s.to_multiset(),
    ensures
        spec_feed(t) == spec_feed(s),
{
    broadcast use vstd::seq_lib::group_to_multiset_ensures;

    assert forall|p: (Date, OutcomeV)| s.contains(p) <==> t.contains(p) by {
        assert(s.contains(p) <==> s.to_multiset().count(p) > 0);
        assert(t.contains(p) <==> t.to_multiset().count(p) > 0);
    }
    assert forall|i: int, j: int| 0 <= i < j < s.len() implies s[i] != s[j] by {
        assert((#[trigger] s[i]).0 != (#[trigger] s[j]).0);
    }
    s.lemma_multiset_has_no_duplicates();
    t.lemma_multiset_has_no_duplicates_conv();
    assert forall|i: int| 0 <= i < t.len() implies valid_date((#[trigger] t[i]).0)
        && outcome_dated(t[i].1) by {
        assert(t.contains(t[i]));
        assert(s.contains(t[i]));
        let u = choose|u: int| 0 <= u < s.len() && s[u] == t[i];
    }
    assert forall|i: int, j: int| 0 <= i < j < t.len() implies (#[trigger] t[i]).0 != (
    #[trigger] t[j]).0 by {
        if t[i].0 == t[j].0 {
            assert(t[i] != t[j]);
            assert(t.contains(t[i]) && t.contains(t[j]));
            assert(s.contains(t[i]) && s.contains(t[j]));
            let u = choose|u: int| 0 <= u < s.len() && s[u] == t[i];
            let v = choose|v: int| 0 <= v < s.len() && s[v] == t[j];
            assert(u != v);
            if u < v {
                assert(s[u].0 != s[v].0);
            } else {
                assert(s[v].0 != s[u].0);
            }
            assert(false);
        }
    }
    lemma_feed_props(s);
    lemma_feed_props(t);
    assert forall|p: (Date, OutcomeV)| spec_feed(s).contains(p) <==> spec_feed(t).contains(
        p,
    ) by {
        assert(spec_feed(s).contains(p) <==> s.contains(p));
        assert(spec_feed(t).contains(p) <==> t.contains(p));
        assert(s.contains(p) <==> s.to_multiset().count(p) > 0);
        assert(t.contains(p) <==> t.to_multiset().count(p) > 0);
    }
    lemma_wf_entries_unique(spec_feed(s), spec_feed(t));
}

/// Dropping a list's first element drops its view's first entry.
pub proof fn lemma_entries_view_drop_first(v: Seq<(Date, DateOutcome)>)
    requires
        v.len() > 0,
    ensures
        entries_view(v.remove(0)) == entries_view(v).drop_first(),
{
    let a = entries_view(v.remove(0));
    let b = entries_view(v).drop_first();
    assert forall|t: int| 0 <= t < a.len() implies a[t] == b[t] by {
        assert(v.remove(0)[t] == v[t + 1]);
        assert(entries_view(v)[t + 1] == (v[t + 1].0, v[t + 1].1@));
    }
    assert(a =~= b);
}

/// Feeding the next outcome of an ascending list appends it to the entries.
pub proof fn lemma_feed_step(ov: Seq<(Date, OutcomeV)>, i: int)
    requires
        0 <= i < ov.len(),
        forall|t: int| 0 <= t < ov.len() ==> valid_date((#[trigger] ov[t]).0),
        forall|t: int|
            0 <= t < ov.len() - 1 ==> day_index((#[trigger] ov[t]).0) < day_index(ov[t + 1].0),
    ensures
        !has_date(ov.take(i), ov[i].0),
        spec_record(ov.take(i), ov[i].0, ov[i].1) == ov.take(i + 1),
{
    let d = ov[i].0;
    assert forall|t: int| 0 <= t < i implies day_index((#[trigger] ov.take(i)[t]).0) < day_index(
        d,
    ) by {
        assert(ov.take(i)[t] == ov[t]);
        if t < i - 1 {
            lemma_entries_ascending(ov, t, i);
        } else {
            assert(day_index(ov[t].0) < day_index(ov[t + 1].0));
        }
    }
    if has_date(ov.take(i), d) {
        let t = choose|t: int| 0 <= t < ov.take(i).len() && ov.take(i)[t].0 == d;
        assert(day_index(ov.take(i)[t].0) < day_index(d));
        assert(false);
    }
    lemma_insert_pos_at_end(ov.take(i), d);
    assert(ov.take(i).insert(i, (d, ov[i].1)) =~= ov.take(i + 1));
}

/// The dates that succeeded, in date order.
pub open spec fn successes_of(s: Seq<(Date, OutcomeV)>) -> Seq<Date>
    decreases s.len(),
{
    if s.len() == 0 {
        Seq::empty()
    } else {
        let front = successes_of(s.drop_last());
        match s.last().1 {
            OutcomeV::Records(_) => front.push(s.last().0),
            OutcomeV::Failed(_) => front,
        }
    }
}

/// The dates that failed, with their errors, in date order.
pub open spec fn failures_of(s: Seq<(Date, OutcomeV)>) -> Seq<(Date, DateError)>
    decreases s.len(),
{
    if s.len() == 0 {
        Seq::empty()
    } else {
        let front = failures_of(s.drop_last());
        match s.last().1 {
            OutcomeV::Records(_) => front,
            OutcomeV::Failed(e) => front.push((s.last().0, e)),
        }
    }
}

/// The successful dates' records, concatenated in date order.
pub open spec fn concat_success(s: Seq<(Date, OutcomeV)>) -> Seq<RecordV>
    decreases s.len(),
{
    if s.len() == 0 {
        Seq::empty()
    } else {
        concat_success(s.drop_last()) + (match s.last().1 {
            OutcomeV::Records(rs) => rs,
            OutcomeV::Failed(_) => Seq::empty(),
        })
    }
}

/// The finalized record list: concatenated, collapsed, sorted.
pub open spec fn merged_records(s: Seq<(Date, OutcomeV)>) -> Seq<RecordV> {
    sort_recs(dedup(concat_success(s)))
}

proof fn lemma_concat_success_dated(s: Seq<(Date, OutcomeV)>)
    requires
        forall|i: int| 0 <= i < s.len() ==> outcome_dated((#[trigger] s[i]).1),
    ensures
        recs_dated(concat_success(s)),
    decreases s.len(),
{
    if s.len() > 0 {
        assert forall|i: int| 0 <= i < s.drop_last().len() implies outcome_dated(
            (#[trigger] s.drop_last()[i]).1,
        ) by {
            assert(s.drop_last()[i] == s[i]);
        }
        lemma_concat_success_dated(s.drop_last());
        assert(outcome_dated(s[s.len() - 1].1));
    }
}

proof fn lemma_dedup_dated(s: Seq<RecordV>)
    requires
        recs_dated(s),
    ensures
        recs_dated(dedup(s)),
    decreases s.len(),
{
    if s.len() > 0 {
        assert forall|i: int| 0 <= i < s.drop_last().len() implies valid_date(
            (#[trigger] s.drop_last()[i]).date,
        ) by {
            assert(s.drop_last()[i] == s[i]);
        }
        lemma_dedup_dated(s.drop_last());
        assert(valid_date(s[s.len() - 1].date));
    }
}

/// The finalized result of one run.
#[derive(Debug, PartialEq, Eq)]
pub struct RunResult {
    pub succeeded: Vec<Date>,
    pub failed: Vec<(Date, DateError)>,
    pub records: Vec<DeletionRecord>,
}

impl Aggregator {
    /// Merges everything recorded into the run's result.
    pub fn finalize(self) -> (r: RunResult)
        requires
            self.wf(),
        ensures
            r.succeeded@ == successes_of(self@),
            r.failed@ == failures_of(self@),
            recs_view(r.records@) == merged_records(self@),
            recs_dated(recs_view(r.records@)),
    {
        let ghost orig = self@;
        let mut entries = self.entries;
        let mut succeeded: Vec<Date> = Vec::new();
        let mut failed: Vec<(Date, DateError)> = Vec::new();
        let mut all: Vec<DeletionRecord> = Vec::new();
        let ghost i: int = 0;
        proof {
            assert(succeeded@ =~= successes_of(orig.take(0)));
            assert(failed@ =~= failures_of(orig.take(0)));
            assert(recs_view(all@) =~= concat_success(orig.take(0)));
        }
        while entries.len() > 0
            invariant
                0 <= i <= orig.len(),
                wf_entries(orig),
                entries_view(entries@) =~= orig.skip(i),
                succeeded@ == successes_of(orig.take(i)),
                failed@ == failures_of(orig.take(i)),
                recs_view(all@) == concat_success(orig.take(i)),
            decreases entries.len(),
        {
            let ghost epre = entries@;
            proof {
                assert(entries_view(epre).len() == epre.len());
                assert(i < orig.len());
                assert(entries_view(epre)[0] == orig.skip(i)[0]);
                assert(orig.skip(i)[0] == orig[i]);
            }
            let e = entries.remove(0);
            let (d, oc) = e;
            let ghost apre = all@;
            let ghost spre = succeeded@;
            let ghost fpre = failed@;
            match oc {
                DateOutcome::Records(mut rs) => {
                    let ghost rspre = rs@;
                    let ghost rsv = recs_view(rs@);
                    succeeded.push(d);
                    all.append(&mut rs);
                    proof {
                        assert(orig[i].1 == OutcomeV::Records(rsv));
                        assert forall|t: int| 0 <= t < recs_view(all@).len() implies recs_view(
                            all@,
                        )[t] == (concat_success(orig.take(i)) + rsv)[t] by {
                            if t < apre.len() {
                                assert(all@[t] == apre[t]);
                                assert(recs_view(apre)[t] == concat_success(orig.take(i))[t]);
                            } else {
                                assert(all@[t] == rspre[t - apre.len()]);
                                assert(recs_view(rspre)[t - apre.len()] == rsv[t - apre.len()]);
                            }
                        }
                        assert(recs_view(all@) =~= concat_success(orig.take(i)) + rsv);
                    }
                },
                DateOutcome::Failed(err) => {
                    failed.push((d, err));
                    proof {
                        assert(orig[i].1 == OutcomeV::Failed(err));
                    }
                },
            }
            proof {
                assert(orig.take(i + 1).drop_last() =~= orig.take(i));
                assert(orig.take(i + 1).last() == orig[i]);
                assert(orig[i].0 == d);
                assert(succeeded@ =~= successes_of(orig.take(i + 1)));
                assert(failed@ =~= failures_of(orig.take(i + 1)));
                assert(recs_view(all@) =~= concat_success(orig.take(i + 1)));
                assert forall|t: int| 0 <= t < entries_view(entries@).len() implies entries_view(
                    entries@,
                )[t] == orig.skip(i + 1)[t] by {
                    assert(entries@[t] == epre[t + 1]);
                    assert(entries_view(epre)[t + 1] == orig.skip(i)[t + 1]);
                }
                assert(entries_view(entries@) =~= orig.skip(i + 1));
            }
            proof {
                i = i + 1;
            }
        }
        proof {
            assert(orig.take(i) =~= orig);
            assert forall|t: int| 0 <= t < orig.len() implies outcome_dated(
                (#[trigger] orig[t]).1,
            ) by {}
            lemma_concat_success_dated(orig);
            lemma_dedup_dated(concat_success(orig));
        }
        let deduped = dedup_records(all);
        let sorted = sort_records(deduped);
        RunResult { succeeded, failed, records: sorted }
    }
}

} // verus!
