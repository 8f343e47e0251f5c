//! Deletion-discussion records and the merge pipeline on them: records are
//! keyed by (article title, nomination date), duplicates collapse keeping
//! the first seen, and output is ordered by (nomination date, title).

use vstd::prelude::*;
use crate::bytes::{bytes_eq, bytes_le, lemma_lex_total, lex_le};
use crate::date::{Date, day_index, day_index_of, valid_date};

verus! {

/// One nominated biography article, as parsed from a listing.
#[derive(Debug, PartialEq, Eq)]
pub struct DeletionRecord {
    pub title: Vec<u8>,
    pub nomination_date: Date,
    pub status: Vec<u8>,
    pub nominator: Vec<u8>,
}

/// The mathematical shadow of a record.
pub ghost struct RecordV {
    pub title: Seq<u8>,
    pub date: Date,
    pub status: Seq<u8>,
    pub nominator: Seq<u8>,
}

impl View for DeletionRecord {
    type V = RecordV;

    open spec fn view(&self) -> RecordV {
        RecordV {
            title: self.title@,
            date: self.nomination_date,
            status: self.status@,
            nominator: self.nominator@,
        }
    }
}

pub open spec fn recs_view(s: Seq<DeletionRecord>) -> Seq<RecordV> {
    s.map_values(|r: DeletionRecord| r@)
}

/// All nomination dates are valid calendar dates.
pub open spec fn recs_dated(s: Seq<RecordV>) -> bool {
    forall|i: int| 0 <= i < s.len() ==> valid_date(#[trigger] s[i].date)
}

pub open spec fn key_matches(x: RecordV, t: Seq<u8>, d: Date) -> bool {
    x.title == t && x.date == d
}

/// Does some record in `s` carry key `(t, d)`?
pub open spec fn has_key(s: Seq<RecordV>, t: Seq<u8>, d: Date) -> bool {
    exists|i: int| 0 <= i < s.len() && #[trigger] key_matches(s[i], t, d)
}

/// No two records share a key.
pub open spec fn nodup_keys(s: Seq<RecordV>) -> bool {
    forall|i: int, j: int|
        0 <= i < j < s.len() ==> !key_matches(#[trigger] s[i], #[trigger] s[j].title, s[j].date)
}

/// Order by nomination date, then title.
pub open spec fn rec_le(a: RecordV, b: RecordV) -> bool {
    ||| day_index(a.date) < day_index(b.date)
    ||| (day_index(a.date) == day_index(b.date) && lex_le(a.title, b.title))
}

pub open spec fn sorted_recs(s: Seq<RecordV>) -> bool {
    forall|i: int| 0 <= i < s.len() - 1 ==> rec_le(#[trigger] s[i], s[i + 1])
}

/// Collapses duplicate keys, keeping the first occurrence.
pub open spec fn dedup(s: Seq<RecordV>) -> Seq<RecordV>
    decreases s.len(),
{
    if s.len() == 0 {
        Seq::empty()
    } else {
        let front = dedup(s.drop_last());
        if has_key(s.drop_last(), s.last().title, s.last().date) {
            front
        } else {
            front.push(s.last())
        }
    }
}

/// Insertion into a sorted sequence, before the first element not below `x`.
pub open spec fn ins(s: Seq<RecordV>, x: RecordV) -> Seq<RecordV>
    decreases s.len(),
{
    if s.len() == 0 {
        seq![x]
    } else if rec_le(x, s.first()) {
        seq![x] + s
    } else {
        seq![s.first()] + ins(s.drop_first(), x)
    }
}

/// Insertion sort.
pub open spec fn sort_recs(s: Seq<RecordV>) -> Seq<RecordV>
    decreases s.len(),
{
    if s.len() == 0 {
        Seq::empty()
    } else {
        ins(sort_recs(s.drop_last()), s.last())
    }
}

/// Deduplication neither invents nor loses keys.
proof fn lemma_dedup_keys(s: Seq<RecordV>)
    ensures
        forall|t: Seq<u8>, d: Date| has_key(dedup(s), t, d) == has_key(s, t, d),
    decreases s.len(),
{
    if s.len() > 0 {
        lemma_dedup_keys(s.drop_last());
        assert forall|t: Seq<u8>, d: Date| has_key(dedup(s), t, d) == has_key(s, t, d) by {
            let front = dedup(s.drop_last());
            let x = s.last();
            if has_key(s, t, d) {
                let i = choose|i: int| 0 <= i < s.len() && key_matches(s[i], t, d);
                if i < s.len() - 1 {
                    assert(key_matches(s.drop_last()[i], t, d));
                    assert(has_key(s.drop_last(), t, d));
                    assert(has_key(front, t, d));
                    let j = choose|j: int| 0 <= j < front.len() && key_matches(front[j], t, d);
                    assert(key_matches(dedup(s)[j], t, d));
                } else {
                    if has_key(s.drop_last(), x.title, x.date) {
                        assert(key_matches(x, t, d));
                        assert(has_key(s.drop_last(), t, d));
                        assert(has_key(front, t, d));
                        let j2 = choose|j2: int|
                            0 <= j2 < front.len() && key_matches(front[j2], t, d);
                        assert(key_matches(dedup(s)[j2], t, d));
                    } else {
                        assert(key_matches(dedup(s)[dedup(s).len() - 1], t, d));
                    }
                }
            }
            if has_key(dedup(s), t, d) {
                let i = choose|i: int| 0 <= i < dedup(s).len() && key_matches(dedup(s)[i], t, d);
                if has_key(s.drop_last(), x.title, x.date) {
                    assert(has_key(front, t, d));
                    assert(has_key(s.drop_last(), t, d));
                    let j = choose|j: int|
                        0 <= j < s.drop_last().len() && key_matches(s.drop_last()[j], t, d);
                    assert(key_matches(s[j], t, d));
                } else {
                    if i < front.len() {
                        assert(key_matches(front[i], t, d));
                        assert(has_key(front, t, d));
                        assert(has_key(s.drop_last(), t, d));
                        let j = choose|j: int|
                            0 <= j < s.drop_last().len() && key_matches(s.drop_last()[j], t, d);
                        assert(key_matches(s[j], t, d));
                    } else {
                        assert(dedup(s)[i] == x);
                        assert(key_matches(s[s.len() - 1], t, d));
                    }
                }
            }
        }
    }
}

/// After deduplication no two records share a key.
proof fn lemma_dedup_nodup(s: Seq<RecordV>)
    ensures
        nodup_keys(dedup(s)),
    decreases s.len(),
{
    if s.len() > 0 {
        lemma_dedup_nodup(s.drop_last());
        lemma_dedup_keys(s.drop_last());
        let front = dedup(s.drop_last());
        let x = s.last();
        if !has_key(s.drop_last(), x.title, x.date) {
            assert forall|i: int, j: int| 0 <= i < j < dedup(s).len() implies !key_matches(
                #[trigger] dedup(s)[i],
                #[trigger] dedup(s)[j].title,
                dedup(s)[j].date,
            ) by {
                if j == dedup(s).len() - 1 {
                    if key_matches(front[i], x.title, x.date) {
                        assert(has_key(front, x.title, x.date));
                    }
                }
            }
        }
    }
}

/// What keys an insertion adds: exactly the inserted record's key.
proof fn lemma_ins_keys(s: Seq<RecordV>, x: RecordV)
    ensures
        forall|t: Seq<u8>, d: Date|
            has_key(ins(s, x), t, d) == (has_key(s, t, d) || key_matches(x, t, d)),
    decreases s.len(),
{
    if s.len() == 0 {
        assert forall|t: Seq<u8>, d: Date|
            has_key(ins(s, x), t, d) == (has_key(s, t, d) || key_matches(x, t, d)) by {
            if key_matches(x, t, d) {
                assert(key_matches(ins(s, x)[0], t, d));
            }
            if has_key(ins(s, x), t, d) {
                let i = choose|i: int| 0 <= i < ins(s, x).len() && key_matches(ins(s, x)[i], t, d);
                assert(i == 0);
            }
        }
    } else if rec_le(x, s.first()) {
        assert forall|t: Seq<u8>, d: Date|
            has_key(ins(s, x), t, d) == (has_key(s, t, d) || key_matches(x, t, d)) by {
            if has_key(s, t, d) {
                let i = choose|i: int| 0 <= i < s.len() && key_matches(s[i], t, d);
                assert(key_matches(ins(s, x)[i + 1], t, d));
            }
            if key_matches(x, t, d) {
                assert(key_matches(ins(s, x)[0], t, d));
            }
            if has_key(ins(s, x), t, d) {
                let i = choose|i: int| 0 <= i < ins(s, x).len() && key_matches(ins(s, x)[i], t, d);
                if i > 0 {
                    assert(key_matches(s[i - 1], t, d));
                }
            }
        }
    } else {
        lemma_ins_keys(s.drop_first(), x);
        assert forall|t: Seq<u8>, d: Date|
            has_key(ins(s, x), t, d) == (has_key(s, t, d) || key_matches(x, t, d)) by {
            let rest = ins(s.drop_first(), x);
            assert(has_key(rest, t, d) == (has_key(s.drop_first(), t, d) || key_matches(x, t, d)));
            if has_key(s, t, d) {
                let i = choose|i: int| 0 <= i < s.len() && key_matches(s[i], t, d);
                if i == 0 {
                    assert(key_matches(ins(s, x)[0], t, d));
                } else {
                    assert(key_matches(s.drop_first()[i - 1], t, d));
                    assert(has_key(s.drop_first(), t, d));
                    let j = choose|j: int| 0 <= j < rest.len() && key_matches(rest[j], t, d);
                    assert(key_matches(ins(s, x)[j + 1], t, d));
                }
            }
            if key_matches(x, t, d) {
                let j = choose|j: int| 0 <= j < rest.len() && key_matches(rest[j], t, d);
                assert(key_matches(ins(s, x)[j + 1], t, d));
            }
            if has_key(ins(s, x), t, d) {
                let i = choose|i: int| 0 <= i < ins(s, x).len() && key_matches(ins(s, x)[i], t, d);
                if i == 0 {
                    assert(key_matches(s[0], t, d));
                } else {
                    assert(key_matches(rest[i - 1], t, d));
                    assert(has_key(rest, t, d));
                    if has_key(s.drop_first(), t, d) {
                        let j = choose|j: int|
                            0 <= j < s.drop_first().len() && key_matches(s.drop_first()[j], t, d);
                        assert(key_matches(s[j + 1], t, d));
                    }
                }
            }
        }
    }
}

/// Sorting neither invents nor loses keys.
proof fn lemma_sort_keys(s: Seq<RecordV>)
    ensures
        forall|t: Seq<u8>, d: Date| has_key(sort_recs(s), t, d) == has_key(s, t, d),
    decreases s.len(),
{
    if s.len() > 0 {
        lemma_sort_keys(s.drop_last());
        lemma_ins_keys(sort_recs(s.drop_last()), s.last());
        assert forall|t: Seq<u8>, d: Date| has_key(sort_recs(s), t, d) == has_key(s, t, d) by {
            if has_key(s, t, d) {
                let i = choose|i: int| 0 <= i < s.len() && key_matches(s[i], t, d);
                if i < s.len() - 1 {
                    assert(key_matches(s.drop_last()[i], t, d));
                }
            }
            if has_key(s.drop_last(), t, d) {
                let i = choose|i: int|
                    0 <= i < s.drop_last().len() && key_matches(s.drop_last()[i], t, d);
                assert(key_matches(s[i], t, d));
            }
        }
    }
}

/// Insertion keeps keys pairwise distinct when the new key is fresh.
proof fn lemma_ins_nodup(s: Seq<RecordV>, x: RecordV)
    requires
        nodup_keys(s),
        !has_key(s, x.title, x.date),
    ensures
        nodup_keys(ins(s, x)),
    decreases s.len(),
{
    lemma_ins_keys(s, x);
    if s.len() == 0 {
    } else if rec_le(x, s.first()) {
        assert forall|i: int, j: int| 0 <= i < j < ins(s, x).len() implies !key_matches(
            #[trigger] ins(s, x)[i],
            #[trigger] ins(s, x)[j].title,
            ins(s, x)[j].date,
        ) by {
            if i == 0 {
                if key_matches(x, s[j - 1].title, s[j - 1].date) {
                    assert(key_matches(s[j - 1], x.title, x.date));
                    assert(has_key(s, x.title, x.date));
                }
            } else {
                assert(ins(s, x)[i] == s[i - 1] && ins(s, x)[j] == s[j - 1]);
            }
        }
    } else {
        assert forall|i: int| 0 <= i < s.drop_first().len() implies !key_matches(
            #[trigger] s.drop_first()[i],
            x.title,
            x.date,
        ) by {
            if key_matches(s.drop_first()[i], x.title, x.date) {
                assert(key_matches(s[i + 1], x.title, x.date));
            }
        }
        lemma_ins_nodup(s.drop_first(), x);
        lemma_ins_keys(s.drop_first(), x);
        let rest = ins(s.drop_first(), x);
        assert forall|i: int, j: int| 0 <= i < j < ins(s, x).len() implies !key_matches(
            #[trigger] ins(s, x)[i],
            #[trigger] ins(s, x)[j].title,
            ins(s, x)[j].date,
        ) by {
            if i == 0 {
                assert(ins(s, x)[j] == rest[j - 1]);
                if key_matches(s[0], rest[j - 1].title, rest[j - 1].date) {
                    assert(key_matches(rest[j - 1], s[0].title, s[0].date));
                    assert(has_key(rest, s[0].title, s[0].date));
                    assert(has_key(rest, s[0].title, s[0].date) == (has_key(
                        s.drop_first(),
                        s[0].title,
                        s[0].date,
                    ) || key_matches(x, s[0].title, s[0].date)));
                    if has_key(s.drop_first(), s[0].title, s[0].date) {
                        let t = choose|t: int|
                            0 <= t < s.drop_first().len() && key_matches(
                                s.drop_first()[t],
                                s[0].title,
                                s[0].date,
                            );
                        assert(key_matches(s[t + 1], s[0].title, s[0].date));
                    } else {
                        assert(key_matches(x, s[0].title, s[0].date));
                        assert(key_matches(s[0], x.title, x.date));
                    }
                }
            } else {
                assert(ins(s, x)[i] == rest[i - 1] && ins(s, x)[j] == rest[j - 1]);
            }
        }
    }
}

/// Sorting keeps keys pairwise distinct.
proof fn lemma_sort_nodup(s: Seq<RecordV>)
    requires
        nodup_keys(s),
    ensures
        nodup_keys(sort_recs(s)),
    decreases s.len(),
{
    if s.len() > 0 {
        assert forall|i: int, j: int| 0 <= i < j < s.drop_last().len() implies !key_matches(
            #[trigger] s.drop_last()[i],
            #[trigger] s.drop_last()[j].title,
            s.drop_last()[j].date,
        ) by {
            assert(s.drop_last()[i] == s[i] && s.drop_last()[j] == s[j]);
        }
        lemma_sort_nodup(s.drop_last());
        lemma_sort_keys(s.drop_last());
        if has_key(s.drop_last(), s.last().title, s.last().date) {
            let i = choose|i: int|
                0 <= i < s.drop_last().len() && key_matches(
                    s.drop_last()[i],
                    s.last().title,
                    s.last().date,
                );
            assert(key_matches(s[i], s[s.len() - 1].title, s[s.len() - 1].date));
            assert(false);
        }
        lemma_ins_nodup(sort_recs(s.drop_last()), s.last());
    }
}

/// `rec_le` is total.
proof fn lemma_rec_le_total(a: RecordV, b: RecordV)
    ensures
        rec_le(a, b) || rec_le(b, a),
{
    lemma_lex_total(a.title, b.title);
}

/// Inserting into a sorted sequence keeps it sorted.
proof fn lemma_ins_sorted(s: Seq<RecordV>, x: RecordV)
    requires
        sorted_recs(s),
    ensures
        sorted_recs(ins(s, x)),
    decreases s.len(),
{
    if s.len() == 0 {
    } else if rec_le(x, s.first()) {
    } else {
        assert forall|i: int| 0 <= i < s.drop_first().len() - 1 implies rec_le(
            #[trigger] s.drop_first()[i],
            s.drop_first()[i + 1],
        ) by {
            assert(s.drop_first()[i] == s[i + 1] && s.drop_first()[i + 1] == s[i + 2]);
        }
        lemma_ins_sorted(s.drop_first(), x);
        lemma_rec_le_total(x, s.first());
        let rest = ins(s.drop_first(), x);
        assert forall|i: int| 0 <= i < ins(s, x).len() - 1 implies rec_le(
            #[trigger] ins(s, x)[i],
            ins(s, x)[i + 1],
        ) by {
            if i == 0 {
                if s.drop_first().len() == 0 {
                    assert(rest[0] == x);
                } else if rec_le(x, s.drop_first().first()) {
                    assert(rest[0] == x);
                } else {
                    assert(rest[0] == s.drop_first()[0]);
                    assert(rec_le(s[0], s[1]));
                }
                assert(ins(s, x)[1] == rest[0]);
            } else {
                assert(ins(s, x)[i] == rest[i - 1] && ins(s, x)[i + 1] == rest[i]);
            }
        }
    }
}

/// The sort's output is sorted by (nomination date, title).
pub proof fn lemma_sort_sorted(s: Seq<RecordV>)
    ensures
        sorted_recs(sort_recs(s)),
    decreases s.len(),
{
    if s.len() > 0 {
        lemma_sort_sorted(s.drop_last());
        lemma_ins_sorted(sort_recs(s.drop_last()), s.last());
    }
}

/// Collapsing then sorting keeps every key once: duplicate keys across the
/// input collapse to a single record, and no key is lost.
pub proof fn lemma_merge_collapses_duplicates(s: Seq<RecordV>)
    ensures
        nodup_keys(sort_recs(dedup(s))),
        forall|t: Seq<u8>, d: Date| has_key(sort_recs(dedup(s)), t, d) == has_key(s, t, d),
{
    lemma_dedup_nodup(s);
    lemma_dedup_keys(s);
    lemma_sort_nodup(dedup(s));
    lemma_sort_keys(dedup(s));
}

/// Key lookup over a vector of records.
pub fn contains_key(v: &Vec<DeletionRecord>, t: &Vec<u8>, d: &Date) -> (r: bool)
    ensures
        r == has_key(recs_view(v@), t@, *d),
{
    let mut i: usize = 0;
    while i < v.len()
        invariant
            i <= v.len(),
            forall|j: int| 0 <= j < i ==> !key_matches(#[trigger] recs_view(v@)[j], t@, *d),
        decreases v.len() - i,
    {
        let x = &v[i];
        if bytes_eq(&x.title, t) && x.nomination_date == *d {
            assert(key_matches(recs_view(v@)[i as int], t@, *d));
            return true;
        }
        i = i + 1;
    }
    false
}

/// Collapses duplicate keys in a record list, keeping the first occurrence.
pub fn dedup_records(v: Vec<DeletionRecord>) -> (r: Vec<DeletionRecord>)
    ensures
        recs_view(r@) == dedup(recs_view(v@)),
{
    let ghost orig: Seq<RecordV> = recs_view(v@);
    let mut v = v;
    let mut out: Vec<DeletionRecord> = Vec::new();
    let ghost i: int = 0;
    while v.len() > 0
        invariant
            0 <= i <= orig.len(),
            recs_view(v@) =~= orig.skip(i),
            recs_view(out@) == dedup(orig.take(i)),
        decreases v.len(),
    {
        let ghost vpre = v@;
        let x = v.remove(0);
        proof {
            assert(recs_view(vpre).len() == vpre.len());
            assert(recs_view(vpre).len() == orig.skip(i).len());
            assert(i < orig.len());
            assert(x@ == recs_view(vpre)[0]);
            assert(recs_view(vpre)[0] == orig.skip(i)[0]);
            assert(orig.skip(i)[0] == orig[i]);
            lemma_dedup_keys(orig.take(i));
        }
        let dup = contains_key(&out, &x.title, &x.nomination_date);
        assert(dup == has_key(orig.take(i), x@.title, x@.date));
        let ghost opre = out@;
        if !dup {
            out.push(x);
        }
        proof {
            assert(orig.take(i + 1).drop_last() =~= orig.take(i));
            assert(orig.take(i + 1).last() == orig[i]);
            if !dup {
                assert forall|j: int| 0 <= j < recs_view(out@).len() implies recs_view(out@)[j]
                    == recs_view(opre).push(x@)[j] by {
                    if j < opre.len() {
                        assert(out@[j] == opre[j]);
                    } else {
                        assert(out@[j] == x);
                    }
                }
                assert(recs_view(out@) =~= recs_view(opre).push(x@));
            }
            assert(recs_view(out@) =~= dedup(orig.take(i + 1)));
            assert forall|j: int| 0 <= j < recs_view(v@).len() implies recs_view(v@)[j]
                == orig.skip(i + 1)[j] by {
                assert(v@[j] == vpre[j + 1]);
                assert(recs_view(vpre)[j + 1] == orig.skip(i)[j + 1]);
            }
            assert(recs_view(v@) =~= orig.skip(i + 1));
        }
        proof {
            i = i + 1;
        }
    }
    proof {
        assert(orig.take(i) =~= orig);
    }
    out
}

/// Order comparison, computed.
pub fn rec_le_exec(a: &DeletionRecord, b: &DeletionRecord) -> (r: bool)
    requires
        valid_date(a@.date),
        valid_date(b@.date),
    ensures
        r == rec_le(a@, b@),
{
    let da = day_index_of(&a.nomination_date);
    let db = day_index_of(&b.nomination_date);
    if da < db {
        true
    } else if da > db {
        false
    } else {
        bytes_le(&a.title, &b.title)
    }
}

/// The position argument pins down where the insertion lands.
proof fn lemma_ins_at(s: Seq<RecordV>, x: RecordV, j: int)
    requires
        0 <= j <= s.len(),
        forall|t: int| 0 <= t < j ==> !rec_le(x, #[trigger] s[t]),
        j < s.len() ==> rec_le(x, s[j]),
    ensures
        ins(s, x) == s.insert(j, x),
    decreases j,
{
    if j == 0 {
        if s.len() == 0 {
            assert(ins(s, x) =~= s.insert(0, x));
        } else {
            assert(ins(s, x) =~= s.insert(0, x));
        }
    } else {
        assert(!rec_le(x, s[0]));
        assert forall|t: int| 0 <= t < j - 1 implies !rec_le(x, #[trigger] s.drop_first()[t]) by {
            assert(s.drop_first()[t] == s[t + 1]);
        }
        assert(j - 1 < s.drop_first().len() ==> rec_le(x, s.drop_first()[j - 1]));
        lemma_ins_at(s.drop_first(), x, j - 1);
        assert(seq![s.first()] + s.drop_first().insert(j - 1, x) =~= s.insert(j, x));
    }
}

/// Inserts `x` into `out` at its ordered position.
pub fn insert_sorted(out: &mut Vec<DeletionRecord>, x: DeletionRecord)
    requires
        recs_dated(recs_view(old(out)@)),
        valid_date(x@.date),
    ensures
        recs_view(final(out)@) == ins(recs_view(old(out)@), x@),
        recs_dated(recs_view(final(out)@)),
{
    let mut j: usize = 0;
    while j < out.len()
        invariant
            j <= out.len(),
            recs_dated(recs_view(out@)),
            valid_date(x@.date),
            out@ == old(out)@,
            forall|t: int| 0 <= t < j ==> !rec_le(x@, #[trigger] recs_view(out@)[t]),
        ensures
            j <= out.len(),
            out@ == old(out)@,
            forall|t: int| 0 <= t < j ==> !rec_le(x@, #[trigger] recs_view(out@)[t]),
            j < out.len() ==> rec_le(x@, recs_view(out@)[j as int]),
        decreases out.len() - j,
    {
        proof {
            assert(valid_date(recs_view(out@)[j as int].date));
        }
        if rec_le_exec(&x, &out[j]) {
            break;
        }
        j = j + 1;
    }
    proof {
        lemma_ins_at(recs_view(out@), x@, j as int);
    }
    out.insert(j, x);
    proof {
        assert(recs_view(out@) =~= ins(recs_view(old(out)@), x@));
    }
}

/// Sorts records by (nomination date, title).
pub fn sort_records(v: Vec<DeletionRecord>) -> (r: Vec<DeletionRecord>)
    requires
        recs_dated(recs_view(v@)),
    ensures
        recs_view(r@) == sort_recs(recs_view(v@)),
        recs_dated(recs_view(r@)),
{
    let ghost orig: Seq<RecordV> = recs_view(v@);
    let mut v = v;
    let mut out: Vec<DeletionRecord> = Vec::new();
    let ghost i: int = 0;
    while v.len() > 0
        invariant
            0 <= i <= orig.len(),
            recs_dated(orig),
            recs_view(v@) =~= orig.skip(i),
            recs_view(out@) == sort_recs(orig.take(i)),
            recs_dated(recs_view(out@)),
        decreases v.len(),
    {
        let ghost vpre = v@;
        let x = v.remove(0);
        proof {
            assert(recs_view(vpre).len() == vpre.len());
            assert(recs_view(vpre).len() == orig.skip(i).len());
            assert(i < orig.len());
            assert(x@ == recs_view(vpre)[0]);
            assert(recs_view(vpre)[0] == orig.skip(i)[0]);
            assert(orig.skip(i)[0] == orig[i]);
            assert(valid_date(x@.date));
        }
        insert_sorted(&mut out, x);
        proof {
            assert(orig.take(i + 1).drop_last() =~= orig.take(i));
            assert(orig.take(i + 1).last() == orig[i]);
            assert forall|j: int| 0 <= j < recs_view(v@).len() implies recs_view(v@)[j]
                == orig.skip(i + 1)[j] by {
                assert(v@[j] == vpre[j + 1]);
                assert(recs_view(vpre)[j + 1] == orig.skip(i)[j + 1]);
            }
            assert(recs_view(v@) =~= orig.skip(i + 1));
        }
        proof {
            i = i + 1;
        }
    }
    proof {
        assert(orig.take(i) =~= orig);
    }
    out
}

} // verus!
