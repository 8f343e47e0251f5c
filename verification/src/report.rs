//! CSV rendering of the finalized records, and the default report path.
//!
//! The report is a header row and one row per record, fields in the order
//! title, nomination date, status, nominator.  Fields holding a comma,
//! quote, or line break are wrapped in quotes with inner quotes doubled.

use vstd::prelude::*;
use crate::date::{Date, date_bytes, date_to_bytes, valid_date};
use crate::records::{DeletionRecord, recs_dated, recs_view, RecordV};

verus! {

/// Must the field be quoted: does it hold `,`, `"`, CR or LF?
pub open spec fn needs_quoting(f: Seq<u8>) -> bool {
    exists|i: int| 0 <= i < f.len() && ((#[trigger] f[i]) == 44 || f[i] == 34 || f[i] == 13 || f[i] == 10)
}

/// The field with every quote doubled.
pub open spec fn doubled(f: Seq<u8>) -> Seq<u8>
    decreases f.len(),
{
    if f.len() == 0 {
        Seq::empty()
    } else {
        doubled(f.drop_last()) + (if f.last() == 34 {
            seq![34u8, 34u8]
        } else {
            seq![f.last()]
        })
    }
}

/// A field as it appears in the CSV output.
pub open spec fn escape_field(f: Seq<u8>) -> Seq<u8> {
    if needs_quoting(f) {
        seq![34u8] + doubled(f) + seq![34u8]
    } else {
        f
    }
}

/// One record's row, terminated by LF.
pub open spec fn csv_row(r: RecordV) -> Seq<u8> {
    escape_field(r.title) + seq![44u8] + date_bytes(r.date) + seq![44u8] + escape_field(r.status)
        + seq![44u8] + escape_field(r.nominator) + seq![10u8]
}

pub open spec fn csv_rows(s: Seq<RecordV>) -> Seq<u8>
    decreases s.len(),
{
    if s.len() == 0 {
        Seq::empty()
    } else {
        csv_rows(s.drop_last()) + csv_row(s.last())
    }
}

/// `title,nomination_date,status,nominator` and a LF.
pub open spec fn csv_header() -> Seq<u8> {
    seq![
        116u8, 105u8, 116u8, 108u8, 101u8, 44u8, 110u8, 111u8, 109u8, 105u8, 110u8, 97u8, 116u8,
        105u8, 111u8, 110u8, 95u8, 100u8, 97u8, 116u8, 101u8, 44u8, 115u8, 116u8, 97u8, 116u8,
        117u8, 115u8, 44u8, 110u8, 111u8, 109u8, 105u8, 110u8, 97u8, 116u8, 111u8, 114u8, 10u8,
    ]
}

/// The whole report.
pub open spec fn csv_bytes(s: Seq<RecordV>) -> Seq<u8> {
    csv_header() + csv_rows(s)
}

fn field_needs_quoting(f: &Vec<u8>) -> (r: bool)
    ensures
        r == needs_quoting(f@),
{
    let mut i: usize = 0;
    while i < f.len()
        invariant
            i <= f.len(),
            forall|j: int|
                0 <= j < i ==> !((#[trigger] f@[j]) == 44 || f@[j] == 34 || f@[j] == 13 || f@[j]
                    == 10),
        decreases f.len() - i,
    {
        let b = f[i];
        if b == 44 || b == 34 || b == 13 || b == 10 {
            return true;
        }
        i = i + 1;
    }
    false
}

/// Appends the escaped form of `f` to `out`.
fn push_escaped(out: &mut Vec<u8>, f: &Vec<u8>)
    ensures
        final(out)@ == old(out)@ + escape_field(f@),
{
    let ghost base = out@;
    if !field_needs_quoting(f) {
        let mut i: usize = 0;
        while i < f.len()
            invariant
                i <= f.len(),
                out@ == base + f@.take(i as int),
            decreases f.len() - i,
        {
            out.push(f[i]);
            proof {
                assert(out@ =~= base + f@.take(i + 1));
            }
            i = i + 1;
        }
        proof {
            assert(f@.take(f@.len() as int) =~= f@);
            assert(out@ =~= base + escape_field(f@));
        }
    } else {
        out.push(34);
        let mut i: usize = 0;
        while i < f.len()
            invariant
                i <= f.len(),
                out@ == base + seq![34u8] + doubled(f@.take(i as int)),
            decreases f.len() - i,
        {
            let b = f[i];
            out.push(b);
            if b == 34 {
                out.push(34);
            }
            proof {
                assert(f@.take(i + 1).drop_last() =~= f@.take(i as int));
                assert(f@.take(i + 1).last() == f@[i as int]);
                assert(out@ =~= base + seq![34u8] + doubled(f@.take(i + 1)));
            }
            i = i + 1;
        }
        out.push(34);
        proof {
            assert(f@.take(f@.len() as int) =~= f@);
            assert(out@ =~= base + escape_field(f@));
        }
    }
}

/// Renders the records as the complete CSV report.
pub fn csv_encode(records: &Vec<DeletionRecord>) -> (r: Vec<u8>)
    requires
        recs_dated(recs_view(records@)),
    ensures
        r@ == csv_bytes(recs_view(records@)),
{
    let mut out: Vec<u8> = vec![
        116u8, 105u8, 116u8, 108u8, 101u8, 44u8, 110u8, 111u8, 109u8, 105u8, 110u8, 97u8, 116u8,
        105u8, 111u8, 110u8, 95u8, 100u8, 97u8, 116u8, 101u8, 44u8, 115u8, 116u8, 97u8, 116u8,
        117u8, 115u8, 44u8, 110u8, 111u8, 109u8, 105u8, 110u8, 97u8, 116u8, 111u8, 114u8, 10u8,
    ];
    proof {
        assert(out@ =~= csv_header());
        assert(recs_view(records@).take(0) =~= Seq::<RecordV>::empty());
        assert(out@ =~= csv_header() + csv_rows(recs_view(records@).take(0)));
    }
    let ghost rv = recs_view(records@);
    let mut i: usize = 0;
    while i < records.len()
        invariant
            i <= records.len(),
            rv == recs_view(records@),
            recs_dated(rv),
            out@ == csv_header() + csv_rows(rv.take(i as int)),
        decreases records.len() - i,
    {
        let ghost rowbase = out@;
        let x = &records[i];
        proof {
            assert(x@ == rv[i as int]);
            assert(valid_date(rv[i as int].date));
        }
        push_escaped(&mut out, &x.title);
        out.push(44);
        let mut db = date_to_bytes(&x.nomination_date);
        out.append(&mut db);
        out.push(44);
        push_escaped(&mut out, &x.status);
        out.push(44);
        push_escaped(&mut out, &x.nominator);
        out.push(10);
        proof {
            assert(rv.take(i + 1).drop_last() =~= rv.take(i as int));
            assert(rv.take(i + 1).last() == rv[i as int]);
            assert(out@ =~= rowbase + csv_row(rv[i as int]));
            assert(out@ =~= csv_header() + csv_rows(rv.take(i + 1)));
        }
        i = i + 1;
    }
    proof {
        assert(rv.take(rv.len() as int) =~= rv);
    }
    out
}

/// `afd-bios-<DATE>.csv` for the run's start date.
pub open spec fn default_path_bytes(d: Date) -> Seq<u8> {
    seq![97u8, 102u8, 100u8, 45u8, 98u8, 105u8, 111u8, 115u8, 45u8] + date_bytes(d) + seq![
        46u8, 99u8, 115u8, 118u8,
    ]
}

/// The default report path for a run starting at `d`.
pub fn default_output_path(d: &Date) -> (r: Vec<u8>)
    requires
        valid_date(*d),
    ensures
        r@ == default_path_bytes(*d),
{
    let mut out: Vec<u8> = vec![97u8, 102u8, 100u8, 45u8, 98u8, 105u8, 111u8, 115u8, 45u8];
    let mut db = date_to_bytes(d);
    out.append(&mut db);
    out.push(46);
    out.push(99);
    out.push(115);
    out.push(118);
    proof {
        assert(out@ =~= default_path_bytes(*d));
    }
    out
}

} // verus!
