//! Importing statements: the transactions of all files of one import are
//! merged; a transaction that repeats an earlier one of the same import
//! (same date, same description, same amount) is stored once; and stored
//! transactions that the import repeats are reported as possible
//! duplicates from an earlier import.
//!
//! Amounts are compared by the caller's `same_amount`, which must be a
//! function (the same answer for the same amounts).

use vstd::prelude::*;
use crate::statement::ParsedTransaction;
use crate::text::{
    chars_of, lemma_text_lt_irreflexive, lemma_text_lt_total, lemma_text_lt_transitive, text_le,
    text_less, text_lt,
};
use crate::transactions::Transaction;

verus! {

/// The dates of the transactions, in order.
pub open spec fn parsed_dates<A>(ts: Seq<ParsedTransaction<A>>) -> Seq<Seq<char>> {
    ts.map_values(|t: ParsedTransaction<A>| t.date@)
}

/// The first of the smallest texts (`Iterator::min`).
pub open spec fn min_text(ds: Seq<Seq<char>>) -> Seq<char>
    decreases ds.len(),
{
    if ds.len() <= 1 {
        ds[0]
    } else {
        let p = min_text(ds.drop_last());
        if text_lt(ds.last(), p) {
            ds.last()
        } else {
            p
        }
    }
}

/// The last of the largest texts (`Iterator::max`).
pub open spec fn max_text(ds: Seq<Seq<char>>) -> Seq<char>
    decreases ds.len(),
{
    if ds.len() <= 1 {
        ds[0]
    } else {
        let p = max_text(ds.drop_last());
        if text_lt(ds.last(), p) {
            p
        } else {
            ds.last()
        }
    }
}

/// The earliest and the latest date of the import, in text order (the
/// range in which earlier imports are searched for repeats).
pub fn date_span<A>(incoming: &Vec<ParsedTransaction<A>>) -> (r: Option<(String, String)>)
    ensures
        incoming.len() == 0 <==> r is None,
        r matches Some((lo, hi)) ==> lo@ == min_text(parsed_dates(incoming@)) && hi@ == max_text(
            parsed_dates(incoming@),
        ),
{
    if incoming.len() == 0 {
        return None;
    }
    let ghost ds = parsed_dates(incoming@);
    let mut lo = incoming[0].date.clone();
    let mut hi = incoming[0].date.clone();
    let mut lo_chars = chars_of(lo.as_str());
    let mut hi_chars = chars_of(hi.as_str());
    let mut i: usize = 1;
    assert(ds.take(1).len() == 1);
    while i < incoming.len()
        invariant
            1 <= i <= incoming.len(),
            ds == parsed_dates(incoming@),
            lo@ == min_text(ds.take(i as int)),
            hi@ == max_text(ds.take(i as int)),
            lo_chars@ == lo@,
            hi_chars@ == hi@,
            text_le(lo@, hi@),
        decreases incoming.len() - i,
    {
        assert(ds.take(i + 1).drop_last() == ds.take(i as int));
        assert(ds.take(i + 1).last() == incoming@[i as int].date@);
        let d = chars_of(incoming[i].date.as_str());
        proof {
            lemma_text_lt_total(d@, lo_chars@);
            lemma_text_lt_total(d@, hi_chars@);
            if text_lt(d@, lo_chars@) && lo_chars@ != hi_chars@ {
                lemma_text_lt_transitive(d@, lo_chars@, hi_chars@);
            }
            if !text_lt(d@, hi_chars@) && lo_chars@ != hi_chars@ && hi_chars@ != d@ {
                lemma_text_lt_transitive(lo_chars@, hi_chars@, d@);
            }
        }
        if text_less(&d, &lo_chars) {
            lo = incoming[i].date.clone();
            lo_chars = d;
        } else if !text_less(&d, &hi_chars) {
            hi = incoming[i].date.clone();
            hi_chars = d;
        }
        i = i + 1;
    }
    assert(ds.take(incoming.len() as int) == ds);
    Some((lo, hi))
}

/// The smallest text is one of the texts and is not after any of them.
pub proof fn lemma_min_text_least(ds: Seq<Seq<char>>)
    requires
        ds.len() > 0,
    ensures
        ds.contains(min_text(ds)),
        forall|i: int| 0 <= i < ds.len() ==> text_le(min_text(ds), #[trigger] ds[i]),
    decreases ds.len(),
{
    if ds.len() > 1 {
        let p = ds.drop_last();
        lemma_min_text_least(p);
        let m = min_text(p);
        assert forall|i: int| 0 <= i < ds.len() implies text_le(min_text(ds), #[trigger] ds[i]) by {
            if i < ds.len() - 1 {
                assert(p[i] == ds[i]);
                if text_lt(ds.last(), m) && m != ds[i] {
                    lemma_text_lt_transitive(ds.last(), m, ds[i]);
                }
            } else {
                lemma_text_lt_total(ds.last(), m);
            }
        }
        if !text_lt(ds.last(), m) {
            let k = choose|k: int| 0 <= k < p.len() && p[k] == m;
            assert(ds[k] == m);
        }
    } else {
        assert(ds[0] == min_text(ds));
    }
}

/// The largest text is one of the texts and is not before any of them.
pub proof fn lemma_max_text_greatest(ds: Seq<Seq<char>>)
    requires
        ds.len() > 0,
    ensures
        ds.contains(max_text(ds)),
        forall|i: int| 0 <= i < ds.len() ==> text_le(#[trigger] ds[i], max_text(ds)),
    decreases ds.len(),
{
    if ds.len() > 1 {
        let p = ds.drop_last();
        lemma_max_text_greatest(p);
        let m = max_text(p);
        lemma_text_lt_total(ds.last(), m);
        assert forall|i: int| 0 <= i < ds.len() implies text_le(#[trigger] ds[i], max_text(ds)) by {
            if i < ds.len() - 1 {
                assert(p[i] == ds[i]);
                if !text_lt(ds.last(), m) && ds[i] != m {
                    lemma_text_lt_total(ds.last(), m);
                    if ds.last() != m {
                        lemma_text_lt_transitive(ds[i], m, ds.last());
                    }
                }
            } else {
                lemma_text_lt_irreflexive(ds.last());
            }
        }
        if text_lt(ds.last(), m) {
            let k = choose|k: int| 0 <= k < p.len() && p[k] == m;
            assert(ds[k] == m);
        }
    } else {
        assert(ds[0] == max_text(ds));
    }
}

/// Whether `later` repeats `earlier`: same date, same description and
/// amounts that `same_amount` takes as the same.
pub open spec fn repeats<A, F: Fn(&A, &A) -> bool>(
    same_amount: F,
    earlier: ParsedTransaction<A>,
    later: ParsedTransaction<A>,
) -> bool {
    &&& earlier.date@ == later.date@
    &&& earlier.description@ == later.description@
    &&& same_amount.ensures((&earlier.amount, &later.amount), true)
}

/// The transactions of an import without those that repeat an earlier
/// kept one.
pub open spec fn dedup<A, F: Fn(&A, &A) -> bool>(
    same_amount: F,
    ts: Seq<ParsedTransaction<A>>,
) -> Seq<ParsedTransaction<A>>
    decreases ts.len(),
{
    if ts.len() == 0 {
        ts
    } else {
        let kept = dedup(same_amount, ts.drop_last());
        if exists|k: int| 0 <= k < kept.len() && repeats(same_amount, #[trigger] kept[k], ts.last()) {
            kept
        } else {
            kept.push(ts.last())
        }
    }
}

/// Whether the import repeats the stored transaction `t`.
pub open spec fn repeated_by<A, F: Fn(&A, &A) -> bool>(
    same_amount: F,
    incoming: Seq<ParsedTransaction<A>>,
    t: Transaction<A>,
) -> bool {
    exists|i: int|
        0 <= i < incoming.len() && (#[trigger] incoming[i]).date@ == t.date@
            && incoming[i].description@ == t.description@ && same_amount.ensures(
            (&incoming[i].amount, &t.amount),
            true,
        )
}

/// The stored transactions that the import repeats, in stored order.
pub open spec fn possible_duplicates<A, F: Fn(&A, &A) -> bool>(
    same_amount: F,
    incoming: Seq<ParsedTransaction<A>>,
    existing: Seq<Transaction<A>>,
) -> Seq<Transaction<A>>
    decreases existing.len(),
{
    if existing.len() == 0 {
        existing
    } else {
        let p = possible_duplicates(same_amount, incoming, existing.drop_last());
        if repeated_by(same_amount, incoming, existing.last()) {
            p.push(existing.last())
        } else {
            p
        }
    }
}

/// What an import reports: how many transactions it stored, and the stored
/// transactions it may repeat.
#[derive(Debug)]
pub struct ImportResult<A> {
    pub imported: usize,
    pub possible_duplicates: Vec<Transaction<A>>,
}

/// What an import stores, and what it reports.
#[derive(Debug)]
pub struct ImportPlan<A> {
    pub to_store: Vec<ParsedTransaction<A>>,
    pub result: ImportResult<A>,
}

/// Plans an import: `incoming` are the transactions of all its files, in
/// order; `existing` the stored transactions in their date span.
pub fn plan_import<A: Copy, F: Fn(&A, &A) -> bool>(
    incoming: &Vec<ParsedTransaction<A>>,
    existing: &Vec<Transaction<A>>,
    same_amount: F,
) -> (p: ImportPlan<A>)
    requires
        forall|a: &A, b: &A| #[trigger] same_amount.requires((a, b)),
        forall|a: &A, b: &A, r1: bool, r2: bool|
            #[trigger] same_amount.ensures((a, b), r1) && #[trigger] same_amount.ensures((a, b), r2)
                ==> r1 == r2,
    ensures
        p.to_store@ == dedup(same_amount, incoming@),
        p.result.imported == p.to_store.len(),
        p.result.possible_duplicates@ == possible_duplicates(same_amount, incoming@, existing@),
{
    let mut kept: Vec<ParsedTransaction<A>> = Vec::new();
    let mut i: usize = 0;
    while i < incoming.len()
        invariant
            i <= incoming.len(),
            forall|a: &A, b: &A| #[trigger] same_amount.requires((a, b)),
            forall|a: &A, b: &A, r1: bool, r2: bool|
                #[trigger] same_amount.ensures((a, b), r1) && #[trigger] same_amount.ensures(
                    (a, b),
                    r2,
                ) ==> r1 == r2,
            kept@ == dedup(same_amount, incoming@.take(i as int)),
        decreases incoming.len() - i,
    {
        let t = &incoming[i];
        assert(incoming@.take(i + 1).drop_last() == incoming@.take(i as int));
        assert(incoming@.take(i + 1).last() == *t);
        let mut k: usize = 0;
        let mut repeated = false;
        while k < kept.len() && !repeated
            invariant
                k <= kept.len(),
                forall|a: &A, b: &A| #[trigger] same_amount.requires((a, b)),
                forall|a: &A, b: &A, r1: bool, r2: bool|
                    #[trigger] same_amount.ensures((a, b), r1) && #[trigger] same_amount.ensures(
                        (a, b),
                        r2,
                    ) ==> r1 == r2,
                repeated ==> exists|j: int|
                    0 <= j < kept.len() && repeats(same_amount, #[trigger] kept@[j], *t),
                !repeated ==> forall|j: int|
                    0 <= j < k ==> !repeats(same_amount, #[trigger] kept@[j], *t),
            decreases kept.len() - k,
        {
            if kept[k].date == t.date && kept[k].description == t.description {
                let same = same_amount(&kept[k].amount, &t.amount);
                if same {
                    assert(repeats(same_amount, kept@[k as int], *t));
                    repeated = true;
                }
            }
            k = k + 1;
        }
        if !repeated {
            kept.push(t.copied());
        }
        i = i + 1;
    }
    assert(incoming@.take(incoming.len() as int) == incoming@);
    let mut flagged: Vec<Transaction<A>> = Vec::new();
    let mut e: usize = 0;
    while e < existing.len()
        invariant
            e <= existing.len(),
            forall|a: &A, b: &A| #[trigger] same_amount.requires((a, b)),
            forall|a: &A, b: &A, r1: bool, r2: bool|
                #[trigger] same_amount.ensures((a, b), r1) && #[trigger] same_amount.ensures(
                    (a, b),
                    r2,
                ) ==> r1 == r2,
            flagged@ == possible_duplicates(same_amount, incoming@, existing@.take(e as int)),
        decreases existing.len() - e,
    {
        let x = &existing[e];
        assert(existing@.take(e + 1).drop_last() == existing@.take(e as int));
        assert(existing@.take(e + 1).last() == *x);
        let mut j: usize = 0;
        let mut found = false;
        while j < incoming.len() && !found
            invariant
                j <= incoming.len(),
                forall|a: &A, b: &A| #[trigger] same_amount.requires((a, b)),
                forall|a: &A, b: &A, r1: bool, r2: bool|
                    #[trigger] same_amount.ensures((a, b), r1) && #[trigger] same_amount.ensures(
                        (a, b),
                        r2,
                    ) ==> r1 == r2,
                found ==> repeated_by(same_amount, incoming@, *x),
                !found ==> forall|m: int|
                    0 <= m < j ==> !((#[trigger] incoming@[m]).date@ == x.date@
                        && incoming@[m].description@ == x.description@ && same_amount.ensures(
                        (&incoming@[m].amount, &x.amount),
                        true,
                    )),
            decreases incoming.len() - j,
        {
            if incoming[j].date == x.date && incoming[j].description == x.description {
                let same = same_amount(&incoming[j].amount, &x.amount);
                if same {
                    found = true;
                }
            }
            j = j + 1;
        }
        if found {
            flagged.push(x.copied());
        }
        e = e + 1;
    }
    assert(existing@.take(existing.len() as int) == existing@);
    let imported = kept.len();
    ImportPlan { to_store: kept, result: ImportResult { imported, possible_duplicates: flagged } }
}

/// No transaction kept by an import repeats one kept before it, and each
/// one left out repeats one that was kept.
pub proof fn lemma_dedup_keeps_no_repeats<A, F: Fn(&A, &A) -> bool>(
    same_amount: F,
    ts: Seq<ParsedTransaction<A>>,
)
    ensures
        forall|i: int, j: int|
            0 <= i < j < dedup(same_amount, ts).len() ==> !repeats(
                same_amount,
                #[trigger] dedup(same_amount, ts)[i],
                #[trigger] dedup(same_amount, ts)[j],
            ),
        forall|i: int|
            0 <= i < ts.len() && !dedup(same_amount, ts).contains(#[trigger] ts[i]) ==> exists|k: int|
                0 <= k < dedup(same_amount, ts).len() && repeats(
                    same_amount,
                    dedup(same_amount, ts)[k],
                    ts[i],
                ),
    decreases ts.len(),
{
    if ts.len() > 0 {
        let p = ts.drop_last();
        lemma_dedup_keeps_no_repeats(same_amount, p);
        let kept = dedup(same_amount, p);
        let d = dedup(same_amount, ts);
        assert forall|i: int| 0 <= i < ts.len() && !d.contains(#[trigger] ts[i]) implies exists|k: int|
            0 <= k < d.len() && repeats(same_amount, d[k], ts[i]) by {
            if i < ts.len() - 1 {
                assert(p[i] == ts[i]);
                if kept.contains(ts[i]) {
                    let k = choose|k: int| 0 <= k < kept.len() && kept[k] == ts[i];
                    assert(d[k] == kept[k]);
                }
                let k = choose|k: int| 0 <= k < kept.len() && repeats(same_amount, kept[k], p[i]);
                assert(d[k] == kept[k]);
            } else {
                if !(exists|k: int|
                    0 <= k < kept.len() && repeats(same_amount, #[trigger] kept[k], ts.last())) {
                    assert(d[d.len() - 1] == ts.last());
                }
            }
        }
    }
}

} // verus!
