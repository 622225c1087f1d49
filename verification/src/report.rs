//! Reports: spend grouped by filter over a date range, and the
//! tab-separated text that is pasted into a spreadsheet.
//!
//! For each filter (in the order given) the transactions that match it form
//! one row, unless there are none; the row's date is the latest matching
//! date in chronological order, and every matching transaction is marked as
//! accounted. The totals are sums of decimal floating point amounts divided
//! by the split count, which the caller computes and formats.

use vstd::prelude::*;
use crate::filters::Filter;
use crate::text::{
    all_digits, chars_of, concat3, digits_value, is_digit, lemma_text_lt_irreflexive,
    lemma_text_lt_total, lemma_text_lt_transitive, string_of, text_le, text_less, text_lt,
};
use crate::transactions::Transaction;

verus! {

broadcast use vstd::string::group_string_axioms;

/// The pieces of `s` between the occurrences of `sep` (`str::split`): one
/// more piece than there are separators.
pub open spec fn split_on(s: Seq<char>, sep: char) -> Seq<Seq<char>>
    decreases s.len(),
{
    if s.len() == 0 {
        seq![Seq::empty()]
    } else {
        let p = split_on(s.drop_last(), sep);
        if s.last() == sep {
            p.push(Seq::empty())
        } else {
            p.update(p.len() - 1, p.last().push(s.last()))
        }
    }
}

/// The key that orders `MM/DD/YYYY` dates chronologically: `YYYYMMDD`.
/// Text that is not made of three `/`-separated parts is its own key.
pub open spec fn date_sort_key_spec(date: Seq<char>) -> Seq<char> {
    let parts = split_on(date, '/');
    if parts.len() == 3 {
        parts[2] + parts[0] + parts[1]
    } else {
        date
    }
}

proof fn lemma_split_nonempty(s: Seq<char>, sep: char)
    ensures
        split_on(s, sep).len() >= 1,
    decreases s.len(),
{
    if s.len() > 0 {
        lemma_split_nonempty(s.drop_last(), sep);
    }
}

/// The pieces of `cs` between the occurrences of `sep`.
fn split_chars(cs: &Vec<char>, sep: char) -> (parts: Vec<Vec<char>>)
    ensures
        parts@.map_values(|p: Vec<char>| p@) == split_on(cs@, sep),
{
    let mut done: Vec<Vec<char>> = Vec::new();
    let mut cur: Vec<char> = Vec::new();
    let mut i: usize = 0;
    assert(cs@.take(0) == Seq::<char>::empty());
    assert(done@.map_values(|p: Vec<char>| p@).push(cur@) == split_on(cs@.take(0), sep));
    while i < cs.len()
        invariant
            i <= cs.len(),
            done@.map_values(|p: Vec<char>| p@).push(cur@) == split_on(cs@.take(i as int), sep),
        decreases cs.len() - i,
    {
        assert(cs@.take(i + 1).drop_last() == cs@.take(i as int));
        let ghost before = done@.map_values(|p: Vec<char>| p@).push(cur@);
        if cs[i] == sep {
            done.push(cur);
            cur = Vec::new();
            assert(done@.map_values(|p: Vec<char>| p@) == before);
            assert(done@.map_values(|p: Vec<char>| p@).push(cur@) == split_on(
                cs@.take(i + 1),
                sep,
            ));
        } else {
            cur.push(cs[i]);
            assert(done@.map_values(|p: Vec<char>| p@).push(cur@) == before.update(
                before.len() - 1,
                before.last().push(cs@[i as int]),
            ));
        }
        i = i + 1;
    }
    assert(cs@.take(cs.len() as int) == cs@);
    done.push(cur);
    done
}

/// The characters of the sort key of `date`.
fn sort_key_chars(date: &str) -> (k: Vec<char>)
    ensures
        k@ == date_sort_key_spec(date@),
{
    let cs = chars_of(date);
    let parts = split_chars(&cs, '/');
    let ghost ps = parts@.map_values(|p: Vec<char>| p@);
    if parts.len() == 3 {
        assert(ps[0] == parts@[0]@ && ps[1] == parts@[1]@ && ps[2] == parts@[2]@);
        let mut k: Vec<char> = Vec::new();
        k.extend_from_slice(parts[2].as_slice());
        k.extend_from_slice(parts[0].as_slice());
        k.extend_from_slice(parts[1].as_slice());
        k
    } else {
        cs
    }
}

/// Convert MM/DD/YYYY to YYYYMMDD for correct chronological string comparison.
pub fn date_sort_key(date: &str) -> (k: String)
    ensures
        k@ == date_sort_key_spec(date@),
{
    let k = sort_key_chars(date);
    string_of(&k)
}

/// The `LIKE` pattern that matches descriptions holding `pattern`.
pub fn like_pattern(pattern: &str) -> (p: String)
    ensures
        p@ == "%"@ + pattern@ + "%"@,
{
    concat3("%", pattern, "%")
}

/// Whether `date` lies in the range from `from` to `to` (each bound
/// optional and included), comparing sort keys: calendar order for
/// `MM/DD/YYYY` dates.
pub open spec fn in_date_range(
    date: Seq<char>,
    from: Option<Seq<char>>,
    to: Option<Seq<char>>,
) -> bool {
    &&& (from matches Some(f) ==> !text_lt(date_sort_key_spec(date), date_sort_key_spec(f)))
    &&& (to matches Some(t) ==> !text_lt(date_sort_key_spec(t), date_sort_key_spec(date)))
}

/// The text of an optional bound.
pub open spec fn bound_text(b: Option<&str>) -> Option<Seq<char>> {
    match b {
        Some(s) => Some(s@),
        None => None,
    }
}

/// The transactions dated within the range, in order.
pub open spec fn dated_within<A>(
    txs: Seq<Transaction<A>>,
    from: Option<Seq<char>>,
    to: Option<Seq<char>>,
) -> Seq<Transaction<A>>
    decreases txs.len(),
{
    if txs.len() == 0 {
        txs
    } else {
        let kept = dated_within(txs.drop_last(), from, to);
        if in_date_range(txs.last().date@, from, to) {
            kept.push(txs.last())
        } else {
            kept
        }
    }
}

/// The sort key of an optional bound.
fn bound_key(b: Option<&str>) -> (k: Option<Vec<char>>)
    ensures
        match b {
            Some(s) => k matches Some(v) && v@ == date_sort_key_spec(s@),
            None => k is None,
        },
{
    match b {
        Some(s) => Some(sort_key_chars(s)),
        None => None,
    }
}

/// The transactions dated from `date_from` to `date_to` (each optional and
/// included) in calendar order, keeping their order.
pub fn within_dates<A: Copy>(
    txs: &Vec<Transaction<A>>,
    date_from: Option<&str>,
    date_to: Option<&str>,
) -> (r: Vec<Transaction<A>>)
    ensures
        r@ == dated_within(txs@, bound_text(date_from), bound_text(date_to)),
{
    let ghost from = bound_text(date_from);
    let ghost to = bound_text(date_to);
    let from_key = bound_key(date_from);
    let to_key = bound_key(date_to);
    let mut r: Vec<Transaction<A>> = Vec::new();
    let mut i: usize = 0;
    while i < txs.len()
        invariant
            i <= txs.len(),
            from == bound_text(date_from),
            to == bound_text(date_to),
            match date_from {
                Some(s) => from_key matches Some(v) && v@ == date_sort_key_spec(s@),
                None => from_key is None,
            },
            match date_to {
                Some(s) => to_key matches Some(v) && v@ == date_sort_key_spec(s@),
                None => to_key is None,
            },
            r@ == dated_within(txs@.take(i as int), from, to),
        decreases txs.len() - i,
    {
        assert(txs@.take(i + 1).drop_last() == txs@.take(i as int));
        assert(txs@.take(i + 1).last() == txs@[i as int]);
        let key = sort_key_chars(txs[i].date.as_str());
        let after_start = match &from_key {
            Some(f) => !text_less(&key, f),
            None => true,
        };
        let before_end = match &to_key {
            Some(t) => !text_less(t, &key),
            None => true,
        };
        if after_start && before_end {
            r.push(txs[i].copied());
        }
        i = i + 1;
    }
    assert(txs@.take(txs.len() as int) == txs@);
    r
}

/// The sort key of a transaction's date.
pub open spec fn date_key<A>(t: Transaction<A>) -> Seq<char> {
    date_sort_key_spec(t.date@)
}

/// Whether the transactions come newest first: no transaction's date key
/// comes before that of a later one.
pub open spec fn newest_first<A>(txs: Seq<Transaction<A>>) -> bool {
    forall|i: int, j: int|
        0 <= i < j < txs.len() ==> !text_lt(#[trigger] date_key(txs[i]), #[trigger] date_key(txs[j]))
}

/// The transactions reordered newest first by date in calendar order.
pub fn order_newest_first<A: Copy>(txs: &Vec<Transaction<A>>) -> (r: Vec<Transaction<A>>)
    ensures
        r@.to_multiset() == txs@.to_multiset(),
        newest_first(r@),
{
    let mut r: Vec<Transaction<A>> = Vec::new();
    let mut keys: Vec<Vec<char>> = Vec::new();
    let mut i: usize = 0;
    assert(txs@.take(0) == Seq::<Transaction<A>>::empty());
    while i < txs.len()
        invariant
            i <= txs.len(),
            r.len() == keys.len(),
            forall|k: int| 0 <= k < keys.len() ==> #[trigger] keys@[k]@ == date_key(r@[k]),
            r@.to_multiset() == txs@.take(i as int).to_multiset(),
            newest_first(r@),
        decreases txs.len() - i,
    {
        let t = txs[i].copied();
        let key = sort_key_chars(t.date.as_str());
        let mut p: usize = 0;
        while p < keys.len() && !text_less(&keys[p], &key)
            invariant
                p <= keys.len() == r.len(),
                forall|k: int| 0 <= k < keys.len() ==> #[trigger] keys@[k]@ == date_key(r@[k]),
                forall|q: int| 0 <= q < p ==> !text_lt(#[trigger] date_key(r@[q]), key@),
            decreases keys.len() - p,
        {
            p = p + 1;
        }
        let ghost old_r = r@;
        proof {
            assert forall|j: int| p <= j < old_r.len() implies !text_lt(key@, #[trigger] date_key(old_r[j])) by {
                let kp = date_key(old_r[p as int]);
                let kj = date_key(old_r[j]);
                assert(text_lt(kp, key@));
                if j > p {
                    assert(!text_lt(kp, kj));
                }
                lemma_text_lt_total(kj, kp);
                if kj != kp {
                    lemma_text_lt_transitive(kj, kp, key@);
                }
                lemma_text_lt_total(kj, key@);
            }
        }
        r.insert(p, t);
        keys.insert(p, key);
        assert(r@ == old_r.insert(p as int, txs@[i as int]));
        assert(txs@.take(i + 1) == txs@.take(i as int).push(txs@[i as int]));
        proof {
            vstd::seq_lib::to_multiset_insert(old_r, p as int, txs@[i as int]);
            vstd::seq_lib::to_multiset_build(txs@.take(i as int), txs@[i as int]);
        }
        assert forall|a: int, b: int| 0 <= a < b < r@.len() implies !text_lt(
            #[trigger] date_key(r@[a]),
            #[trigger] date_key(r@[b]),
        ) by {
            if a < p && b < p {
                assert(r@[a] == old_r[a] && r@[b] == old_r[b]);
            } else if a < p && b == p {
                assert(r@[a] == old_r[a]);
            } else if a < p && b > p {
                assert(r@[a] == old_r[a] && r@[b] == old_r[b - 1]);
            } else if a == p {
                assert(r@[b] == old_r[b - 1]);
            } else {
                assert(r@[a] == old_r[a - 1] && r@[b] == old_r[b - 1]);
            }
        }
        assert forall|k: int| 0 <= k < keys.len() implies #[trigger] keys@[k]@ == date_key(r@[k]) by {
            if k < p {
                assert(r@[k] == old_r[k]);
            } else if k > p {
                assert(r@[k] == old_r[k - 1]);
            }
        }
        i = i + 1;
    }
    assert(txs@.take(txs.len() as int) == txs@);
    r
}

/// The transactions dated from `date_from` to `date_to` (each optional and
/// included) in calendar order, listed newest first.
pub fn list_newest_first<A: Copy>(
    txs: &Vec<Transaction<A>>,
    date_from: Option<&str>,
    date_to: Option<&str>,
) -> (r: Vec<Transaction<A>>)
    ensures
        r@.to_multiset() == dated_within(txs@, bound_text(date_from), bound_text(date_to)).to_multiset(),
        newest_first(r@),
{
    let kept = within_dates(txs, date_from, date_to);
    order_newest_first(&kept)
}

/// The dates of the transactions, in order.
pub open spec fn dates_of<A>(txs: Seq<Transaction<A>>) -> Seq<Seq<char>> {
    txs.map_values(|t: Transaction<A>| t.date@)
}

/// The ids of the transactions, in order.
pub open spec fn ids_of<A>(txs: Seq<Transaction<A>>) -> Seq<i64> {
    txs.map_values(|t: Transaction<A>| t.id)
}

/// The latest of the dates by sort key, scanning in order from the empty
/// text and keeping the earlier date on equal keys.
pub open spec fn latest_date(dates: Seq<Seq<char>>) -> Seq<char>
    decreases dates.len(),
{
    if dates.len() == 0 {
        Seq::empty()
    } else {
        let prev = latest_date(dates.drop_last());
        if text_lt(date_sort_key_spec(prev), date_sort_key_spec(dates.last())) {
            dates.last()
        } else {
            prev
        }
    }
}

/// The transactions that one filter matched, for a report.
#[derive(Debug)]
pub struct ReportGroup<A> {
    pub filter_name: String,
    pub last_date: String,
    pub transactions: Vec<Transaction<A>>,
}

/// A [`ReportGroup`] with texts for strings.
pub ghost struct GroupModel<A> {
    pub filter_name: Seq<char>,
    pub last_date: Seq<char>,
    pub transactions: Seq<Transaction<A>>,
}

impl<A> View for ReportGroup<A> {
    type V = GroupModel<A>;

    open spec fn view(&self) -> GroupModel<A> {
        GroupModel {
            filter_name: self.filter_name@,
            last_date: self.last_date@,
            transactions: self.transactions@,
        }
    }
}

/// The groups of a report over the first `n` filters: one per filter that
/// matched at least one transaction, in filter order.
pub open spec fn report_groups<A>(
    filters: Seq<Filter>,
    matches: Seq<Seq<Transaction<A>>>,
    n: nat,
) -> Seq<GroupModel<A>>
    decreases n,
{
    if n == 0 {
        Seq::empty()
    } else {
        let prev = report_groups(filters, matches, (n - 1) as nat);
        let m = matches[n - 1];
        if m.len() == 0 {
            prev
        } else {
            prev.push(
                GroupModel {
                    filter_name: filters[n - 1].name@,
                    last_date: latest_date(dates_of(m)),
                    transactions: m,
                },
            )
        }
    }
}

/// The ids of all transactions matched by the first `n` filters, filter by
/// filter.
pub open spec fn matched_ids<A>(matches: Seq<Seq<Transaction<A>>>, n: nat) -> Seq<i64>
    decreases n,
{
    if n == 0 {
        Seq::empty()
    } else {
        matched_ids(matches, (n - 1) as nat) + ids_of(matches[n - 1])
    }
}

/// The transaction lists of the matches.
pub open spec fn match_seqs<A>(matches: Seq<Vec<Transaction<A>>>) -> Seq<Seq<Transaction<A>>> {
    matches.map_values(|m: Vec<Transaction<A>>| m@)
}

/// What a report groups, and the transactions that it marks as accounted.
#[derive(Debug)]
pub struct ReportPlan<A> {
    pub groups: Vec<ReportGroup<A>>,
    pub accounted_ids: Vec<i64>,
}

/// The latest date among the transactions.
fn latest_date_of<A>(txs: &Vec<Transaction<A>>) -> (d: String)
    ensures
        d@ == latest_date(dates_of(txs@)),
{
    let ghost ds = dates_of(txs@);
    let mut last = String::new();
    let mut last_key = sort_key_chars("");
    proof {
        reveal_strlit("");
    }
    let mut i: usize = 0;
    assert(ds.take(0) == Seq::<Seq<char>>::empty());
    while i < txs.len()
        invariant
            i <= txs.len(),
            ds == dates_of(txs@),
            last@ == latest_date(ds.take(i as int)),
            last_key@ == date_sort_key_spec(last@),
        decreases txs.len() - i,
    {
        assert(ds.take(i + 1).drop_last() == ds.take(i as int));
        assert(ds.take(i + 1).last() == txs@[i as int].date@);
        let key = sort_key_chars(txs[i].date.as_str());
        if text_less(&last_key, &key) {
            last = txs[i].date.clone();
            last_key = key;
        }
        i = i + 1;
    }
    assert(ds.take(txs.len() as int) == ds);
    last
}

/// Copies of the transactions.
fn copy_all<A: Copy>(txs: &Vec<Transaction<A>>) -> (r: Vec<Transaction<A>>)
    ensures
        r@ == txs@,
{
    let mut r: Vec<Transaction<A>> = Vec::new();
    let mut i: usize = 0;
    while i < txs.len()
        invariant
            i <= txs.len(),
            r@ == txs@.take(i as int),
        decreases txs.len() - i,
    {
        r.push(txs[i].copied());
        i = i + 1;
        assert(r@ == txs@.take(i as int));
    }
    assert(txs@.take(txs.len() as int) == txs@);
    r
}

/// Groups the transactions that each filter matched (`matches[i]` are the
/// matches of `filters[i]`, as the database returned them) into the rows of
/// a report, and lists the ids to mark as accounted.
pub fn plan_report<A: Copy>(filters: &Vec<Filter>, matches: &Vec<Vec<Transaction<A>>>) -> (p:
    ReportPlan<A>)
    requires
        filters.len() == matches.len(),
    ensures
        p.groups@.map_values(|g: ReportGroup<A>| g@) == report_groups(
            filters@,
            match_seqs(matches@),
            filters.len() as nat,
        ),
        p.accounted_ids@ == matched_ids(match_seqs(matches@), filters.len() as nat),
{
    let ghost ms = match_seqs(matches@);
    let mut groups: Vec<ReportGroup<A>> = Vec::new();
    let mut ids: Vec<i64> = Vec::new();
    let mut i: usize = 0;
    while i < filters.len()
        invariant
            i <= filters.len() == matches.len(),
            ms == match_seqs(matches@),
            groups@.map_values(|g: ReportGroup<A>| g@) == report_groups(filters@, ms, i as nat),
            ids@ == matched_ids(ms, i as nat),
        decreases filters.len() - i,
    {
        let m = &matches[i];
        assert(ms[i as int] == m@);
        let ghost before_ids = ids@;
        let mut j: usize = 0;
        while j < m.len()
            invariant
                j <= m.len(),
                ids@ == before_ids + ids_of(m@).take(j as int),
            decreases m.len() - j,
        {
            ids.push(m[j].id);
            j = j + 1;
            assert(ids@ == before_ids + ids_of(m@).take(j as int));
        }
        assert(ids_of(m@).take(m.len() as int) == ids_of(m@));
        if m.len() > 0 {
            let ghost before = groups@.map_values(|g: ReportGroup<A>| g@);
            let group = ReportGroup {
                filter_name: filters[i].name.clone(),
                last_date: latest_date_of(m),
                transactions: copy_all(m),
            };
            groups.push(group);
            assert(groups@.map_values(|g: ReportGroup<A>| g@) == before.push(group@));
        }
        i = i + 1;
    }
    ReportPlan { groups, accounted_ids: ids }
}

/// One row of a report: the filter, its latest date, its total and the
/// transactions that make it up.
#[derive(Debug)]
pub struct ReportRow<A> {
    pub filter_name: String,
    pub last_date: String,
    pub total_amount: A,
    pub transactions: Vec<Transaction<A>>,
}

/// A report: its rows and the text to paste.
#[derive(Debug)]
pub struct ReportOutput<A> {
    pub rows: Vec<ReportRow<A>>,
    pub text: String,
}

/// The text line of a row, in the spreadsheet's column order: the last
/// date of spend, the filter name and the amount, separated by tabs.
pub open spec fn report_line(date: Seq<char>, name: Seq<char>, amount: Seq<char>) -> Seq<char> {
    date + "\t"@ + name + "\t"@ + amount
}

/// Lines joined by line breaks.
pub open spec fn join_lines(lines: Seq<Seq<char>>) -> Seq<char>
    decreases lines.len(),
{
    if lines.len() == 0 {
        Seq::empty()
    } else if lines.len() == 1 {
        lines[0]
    } else {
        join_lines(lines.drop_last()) + "\n"@ + lines.last()
    }
}

/// Appending text without the separator extends the last piece.
proof fn lemma_split_append_plain(s: Seq<char>, t: Seq<char>, sep: char)
    requires
        !t.contains(sep),
    ensures
        split_on(s + t, sep) == split_on(s, sep).update(
            split_on(s, sep).len() - 1,
            split_on(s, sep).last() + t,
        ),
    decreases t.len(),
{
    lemma_split_nonempty(s, sep);
    let p = split_on(s, sep);
    if t.len() == 0 {
        assert(s + t == s);
        assert(p.last() + t == p.last());
        assert(p.update(p.len() - 1, p.last()) == p);
    } else {
        let t0 = t.drop_last();
        let c = t.last();
        assert(!t0.contains(sep)) by {
            if t0.contains(sep) {
                let i = choose|i: int| 0 <= i < t0.len() && t0[i] == sep;
                assert(t[i] == sep);
            }
        }
        assert(c != sep) by {
            assert(t[t.len() - 1] == c);
        }
        lemma_split_append_plain(s, t0, sep);
        assert((s + t).drop_last() == s + t0);
        assert((s + t).last() == c);
        let q = split_on(s + t0, sep);
        assert(q == p.update(p.len() - 1, p.last() + t0));
        assert(q.len() == p.len());
        assert(q.last() == p.last() + t0);
        assert(split_on(s + t, sep) == q.update(q.len() - 1, q.last().push(c)));
        assert((p.last() + t0).push(c) == p.last() + t);
        assert(q.update(q.len() - 1, q.last().push(c)) == p.update(p.len() - 1, p.last() + t));
    }
}

/// The report text splits back into its lines: cutting the lines joined by
/// line breaks at every line break gives exactly the lines, in order, when
/// no line holds a line break itself (so there is one line break fewer than
/// lines).
pub proof fn lemma_joined_lines_split_back(lines: Seq<Seq<char>>)
    requires
        lines.len() > 0,
        forall|i: int| 0 <= i < lines.len() ==> !(#[trigger] lines[i]).contains('\n'),
    ensures
        split_on(join_lines(lines), '\n') == lines,
    decreases lines.len(),
{
    if lines.len() == 1 {
        let e = Seq::<char>::empty();
        lemma_split_append_plain(e, lines[0], '\n');
        assert(e + lines[0] == lines[0]);
        assert(split_on(e, '\n') == seq![e]);
        assert(e + lines[0] == lines[0]);
        assert(split_on(e, '\n').update(0, e + lines[0]) == lines);
    } else {
        let init = lines.drop_last();
        let j = join_lines(init);
        lemma_joined_lines_split_back(init);
        reveal_strlit("\n");
        let jn = j + seq!['\n'];
        assert(jn.drop_last() == j);
        assert(split_on(jn, '\n') == init.push(Seq::<char>::empty()));
        lemma_split_append_plain(jn, lines.last(), '\n');
        assert(join_lines(lines) == jn + lines.last());
        assert(Seq::<char>::empty() + lines.last() == lines.last());
        assert(init.push(Seq::<char>::empty()).update(init.len() as int, lines.last()) == lines);
    }
}

/// A report line holds a line break only where its date, name or amount does.
proof fn lemma_report_line_plain(d: Seq<char>, n: Seq<char>, a: Seq<char>)
    requires
        !d.contains('\n'),
        !n.contains('\n'),
        !a.contains('\n'),
    ensures
        !report_line(d, n, a).contains('\n'),
{
    reveal_strlit("\t");
    let l = report_line(d, n, a);
    if l.contains('\n') {
        let i = choose|i: int| 0 <= i < l.len() && l[i] == '\n';
        let o1 = d.len() + 1;
        let o2 = o1 + n.len() + 1;
        if i < d.len() {
            assert(l[i] == d[i]);
        } else if i == d.len() {
            assert(l[i] == '\t');
        } else if i < o1 + n.len() {
            assert(l[i] == n[i - o1]);
        } else if i == o1 + n.len() {
            assert(l[i] == '\t');
        } else {
            assert(l[i] == a[i - o2]);
        }
    }
}

/// A report line splits at its tabs into exactly the last date, the filter
/// name and the amount, in that column order, when none of them holds a tab.
pub proof fn lemma_report_line_columns(d: Seq<char>, n: Seq<char>, a: Seq<char>)
    requires
        !d.contains('\t'),
        !n.contains('\t'),
        !a.contains('\t'),
    ensures
        split_on(report_line(d, n, a), '\t') == seq![d, n, a],
{
    reveal_strlit("\t");
    let e = Seq::<char>::empty();
    let tab = seq!['\t'];
    assert("\t"@ == tab);
    lemma_split_append_plain(e, d, '\t');
    assert(e + d == d);
    assert(split_on(e, '\t') == seq![e]);
    let s1 = split_on(d, '\t');
    assert(s1 == seq![d]);
    let dt = d + tab;
    assert(dt.drop_last() == d);
    assert(split_on(dt, '\t') == seq![d, e]);
    lemma_split_append_plain(dt, n, '\t');
    assert(e + n == n);
    assert(split_on(dt + n, '\t') == seq![d, n]);
    let dtnt = dt + n + tab;
    assert(dtnt.drop_last() == dt + n);
    assert(split_on(dtnt, '\t') == seq![d, n, e]);
    lemma_split_append_plain(dtnt, a, '\t');
    assert(e + a == a);
    assert(report_line(d, n, a) == dtnt + a);
}

/// The lines of a report whose groups are `groups` and whose formatted
/// totals are `amounts`.
pub open spec fn report_lines<A>(groups: Seq<ReportGroup<A>>, amounts: Seq<String>) -> Seq<
    Seq<char>,
> {
    Seq::new(
        groups.len(),
        |k: int| report_line(groups[k].last_date@, groups[k].filter_name@, amounts[k]@),
    )
}

/// The report for `groups`, with `totals[k]` the total of group `k` and
/// `amounts[k]` that total as it is written in the text.
#[verifier::spinoff_prover]
pub fn finish_report<A: Copy>(
    groups: &Vec<ReportGroup<A>>,
    totals: &Vec<A>,
    amounts: &Vec<String>,
) -> (out: ReportOutput<A>)
    requires
        groups.len() == totals.len(),
        groups.len() == amounts.len(),
    ensures
        out.rows.len() == groups.len(),
        forall|k: int|
            0 <= k < groups.len() ==> {
                &&& #[trigger] out.rows@[k].filter_name == groups@[k].filter_name
                &&& out.rows@[k].last_date == groups@[k].last_date
                &&& out.rows@[k].total_amount == totals@[k]
                &&& out.rows@[k].transactions@ == groups@[k].transactions@
            },
        out.text@ == join_lines(report_lines(groups@, amounts@)),
        groups.len() > 0 && (forall|k: int|
            0 <= k < groups.len() ==> !(#[trigger] groups@[k]).last_date@.contains('\n')
                && !groups@[k].filter_name@.contains('\n') && !amounts@[k]@.contains('\n'))
            ==> split_on(out.text@, '\n') == report_lines(groups@, amounts@),
{
    let ghost lines = report_lines(groups@, amounts@);
    let mut rows: Vec<ReportRow<A>> = Vec::new();
    let mut text = String::new();
    let mut i: usize = 0;
    assert(lines.take(0) == Seq::<Seq<char>>::empty());
    while i < groups.len()
        invariant
            i <= groups.len() == totals.len() == amounts.len(),
            lines == report_lines(groups@, amounts@),
            rows.len() == i,
            forall|k: int|
                0 <= k < i ==> {
                    &&& #[trigger] rows@[k].filter_name == groups@[k].filter_name
                    &&& rows@[k].last_date == groups@[k].last_date
                    &&& rows@[k].total_amount == totals@[k]
                    &&& rows@[k].transactions@ == groups@[k].transactions@
                },
            text@ == join_lines(lines.take(i as int)),
        decreases groups.len() - i,
    {
        let g = &groups[i];
        assert(lines.take(i + 1).drop_last() == lines.take(i as int));
        assert(lines.take(i + 1).last() == lines[i as int]);
        if i > 0 {
            text.append("\n");
        }
        let line = concat3(g.last_date.as_str(), "\t", g.filter_name.as_str());
        text.append(line.as_str());
        text.append("\t");
        text.append(amounts[i].as_str());
        assert(lines[i as int] == report_line(
            g.last_date@,
            g.filter_name@,
            amounts@[i as int]@,
        ));
        proof {
            if i == 0 {
                assert(text@ == lines[0]);
                assert(lines.take(1) == seq![lines[0]]);
            }
        }
        assert(text@ == join_lines(lines.take(i + 1)));
        let ghost old_rows = rows@;
        let row = ReportRow {
            filter_name: g.filter_name.clone(),
            last_date: g.last_date.clone(),
            total_amount: totals[i],
            transactions: copy_all(&g.transactions),
        };
        assert(row.filter_name == groups@[i as int].filter_name);
        assert(row.last_date == groups@[i as int].last_date);
        assert(row.total_amount == totals@[i as int]);
        assert(row.transactions@ == groups@[i as int].transactions@);
        rows.push(row);
        assert(rows@[i as int] == row);
        assert forall|k: int| 0 <= k < i + 1 implies {
            &&& #[trigger] rows@[k].filter_name == groups@[k].filter_name
            &&& rows@[k].last_date == groups@[k].last_date
            &&& rows@[k].total_amount == totals@[k]
            &&& rows@[k].transactions@ == groups@[k].transactions@
        } by {
            if k < i {
                assert(rows@[k] == old_rows[k]);
            }
        }
        i = i + 1;
    }
    assert(lines.take(groups.len() as int) == lines);
    proof {
        if groups.len() > 0 && (forall|k: int|
            0 <= k < groups.len() ==> !(#[trigger] groups@[k]).last_date@.contains('\n')
                && !groups@[k].filter_name@.contains('\n') && !amounts@[k]@.contains('\n')) {
            assert forall|k: int| 0 <= k < lines.len() implies !(#[trigger] lines[k]).contains(
                '\n',
            ) by {
                assert(!groups@[k].last_date@.contains('\n'));
                lemma_report_line_plain(
                    groups@[k].last_date@,
                    groups@[k].filter_name@,
                    amounts@[k]@,
                );
            }
            lemma_joined_lines_split_back(lines);
        }
    }
    ReportOutput { rows, text }
}

/// Whether `d` reads `MM/DD/YYYY` in ASCII digits.
pub open spec fn is_us_date(d: Seq<char>) -> bool {
    &&& d.len() == 10
    &&& d[2] == '/'
    &&& d[5] == '/'
    &&& all_digits(d.subrange(0, 2))
    &&& all_digits(d.subrange(3, 5))
    &&& all_digits(d.subrange(6, 10))
}

/// The year of an `MM/DD/YYYY` date.
pub open spec fn year_of(d: Seq<char>) -> int {
    digits_value(d.subrange(6, 10))
}

/// The month of an `MM/DD/YYYY` date.
pub open spec fn month_of(d: Seq<char>) -> int {
    digits_value(d.subrange(0, 2))
}

/// The day of an `MM/DD/YYYY` date.
pub open spec fn day_of(d: Seq<char>) -> int {
    digits_value(d.subrange(3, 5))
}

/// Whether date `a` falls before date `b` on the calendar.
pub open spec fn chronologically_before(a: Seq<char>, b: Seq<char>) -> bool {
    ||| year_of(a) < year_of(b)
    ||| (year_of(a) == year_of(b) && month_of(a) < month_of(b))
    ||| (year_of(a) == year_of(b) && month_of(a) == month_of(b) && day_of(a) < day_of(b))
}

proof fn lemma_split_without_sep(x: Seq<char>, sep: char)
    requires
        !x.contains(sep),
    ensures
        split_on(x, sep) == seq![x],
    decreases x.len(),
{
    if x.len() > 0 {
        assert(!x.drop_last().contains(sep)) by {
            if x.drop_last().contains(sep) {
                let k = choose|k: int| 0 <= k < x.drop_last().len() && x.drop_last()[k] == sep;
                assert(x[k] == sep);
            }
        }
        lemma_split_without_sep(x.drop_last(), sep);
        assert(x.last() != sep) by {
            assert(x[x.len() - 1] == x.last());
        }
        assert(x.drop_last().push(x.last()) == x);
        assert(seq![x.drop_last()].update(0, x.drop_last().push(x.last())) == seq![x]);
    } else {
        assert(x == Seq::<char>::empty());
    }
}

proof fn lemma_split_append(a: Seq<char>, sep: char, b: Seq<char>)
    requires
        !b.contains(sep),
    ensures
        split_on(a + seq![sep] + b, sep) == split_on(a, sep).push(b),
    decreases b.len(),
{
    let s = a + seq![sep] + b;
    if b.len() == 0 {
        assert(s.drop_last() == a);
        assert(b == Seq::<char>::empty());
    } else {
        assert(s.drop_last() == a + seq![sep] + b.drop_last());
        assert(!b.drop_last().contains(sep)) by {
            if b.drop_last().contains(sep) {
                let k = choose|k: int| 0 <= k < b.drop_last().len() && b.drop_last()[k] == sep;
                assert(b[k] == sep);
            }
        }
        lemma_split_append(a, sep, b.drop_last());
        assert(s.last() == b.last());
        assert(b.drop_last().push(b.last()) == b);
    }
}

proof fn lemma_digits_have_no_slash(x: Seq<char>)
    requires
        all_digits(x),
    ensures
        !x.contains('/'),
{
    if x.contains('/') {
        let k = choose|k: int| 0 <= k < x.len() && x[k] == '/';
        assert(is_digit(x[k]));
    }
}

/// The sort key of an `MM/DD/YYYY` date is `YYYY` `MM` `DD`.
proof fn lemma_us_date_key(d: Seq<char>)
    requires
        is_us_date(d),
    ensures
        date_sort_key_spec(d) == d.subrange(6, 10) + d.subrange(0, 2) + d.subrange(3, 5),
{
    let m = d.subrange(0, 2);
    let dd = d.subrange(3, 5);
    let y = d.subrange(6, 10);
    lemma_digits_have_no_slash(m);
    lemma_digits_have_no_slash(dd);
    lemma_digits_have_no_slash(y);
    assert(d == m + seq!['/'] + dd + seq!['/'] + y);
    lemma_split_append(m + seq!['/'] + dd, '/', y);
    lemma_split_append(m, '/', dd);
    lemma_split_without_sep(m, '/');
}

proof fn lemma_lt_concat(x1: Seq<char>, x2: Seq<char>, y1: Seq<char>, y2: Seq<char>)
    requires
        x1.len() == y1.len(),
    ensures
        text_lt(x1 + x2, y1 + y2) == (text_lt(x1, y1) || (x1 == y1 && text_lt(x2, y2))),
    decreases x1.len(),
{
    if x1.len() == 0 {
        assert(x1 + x2 == x2);
        assert(y1 + y2 == y2);
        assert(x1 == y1);
    } else {
        assert((x1 + x2)[0] == x1[0]);
        assert((y1 + y2)[0] == y1[0]);
        if x1[0] == y1[0] {
            assert((x1 + x2).drop_first() == x1.drop_first() + x2);
            assert((y1 + y2).drop_first() == y1.drop_first() + y2);
            lemma_lt_concat(x1.drop_first(), x2, y1.drop_first(), y2);
            if x1.drop_first() == y1.drop_first() {
                assert(x1 == seq![x1[0]] + x1.drop_first());
                assert(y1 == seq![y1[0]] + y1.drop_first());
            }
        } else {
            assert(x1 != y1);
        }
    }
}

proof fn lemma_digits_order(x: Seq<char>, y: Seq<char>)
    requires
        x.len() == y.len(),
        all_digits(x),
        all_digits(y),
    ensures
        text_lt(x, y) == (digits_value(x) < digits_value(y)),
        (x == y) == (digits_value(x) == digits_value(y)),
        0 <= digits_value(x),
    decreases x.len(),
{
    if x.len() > 0 {
        let xp = x.drop_last();
        let yp = y.drop_last();
        assert(all_digits(xp)) by {
            assert forall|i: int| 0 <= i < xp.len() implies is_digit(#[trigger] xp[i]) by {
                assert(xp[i] == x[i]);
            }
        }
        assert(all_digits(yp)) by {
            assert forall|i: int| 0 <= i < yp.len() implies is_digit(#[trigger] yp[i]) by {
                assert(yp[i] == y[i]);
            }
        }
        lemma_digits_order(xp, yp);
        assert(x == xp + seq![x.last()]);
        assert(y == yp + seq![y.last()]);
        lemma_lt_concat(xp, seq![x.last()], yp, seq![y.last()]);
        assert(is_digit(x[x.len() - 1]));
        assert(is_digit(y[y.len() - 1]));
        let a = seq![x.last()];
        let b = seq![y.last()];
        assert(a.drop_first() == Seq::<char>::empty());
        assert(b.drop_first() == Seq::<char>::empty());
        assert(a[0] == x.last() && b[0] == y.last());
        assert(!text_lt(Seq::<char>::empty(), Seq::<char>::empty()));
        assert(text_lt(a, b) == (x.last() < y.last()));
        if x != y && xp == yp {
            assert(x.last() != y.last()) by {
                if x.last() == y.last() {
                    assert(x == y);
                }
            }
        }
    } else {
        assert(x == y);
    }
}

/// On `MM/DD/YYYY` dates the sort key orders chronologically: one key comes
/// before another exactly when its date falls earlier on the calendar.
pub proof fn lemma_sort_key_chronological(a: Seq<char>, b: Seq<char>)
    requires
        is_us_date(a),
        is_us_date(b),
    ensures
        text_lt(date_sort_key_spec(a), date_sort_key_spec(b)) == chronologically_before(a, b),
        date_sort_key_spec(a) == date_sort_key_spec(b) <==> (year_of(a) == year_of(b) && month_of(
            a,
        ) == month_of(b) && day_of(a) == day_of(b)),
{
    lemma_us_date_key(a);
    lemma_us_date_key(b);
    let (ya, ma, da) = (a.subrange(6, 10), a.subrange(0, 2), a.subrange(3, 5));
    let (yb, mb, db) = (b.subrange(6, 10), b.subrange(0, 2), b.subrange(3, 5));
    assert(ya + ma + da == ya + (ma + da));
    assert(yb + mb + db == yb + (mb + db));
    lemma_lt_concat(ya, ma + da, yb, mb + db);
    lemma_lt_concat(ma, da, mb, db);
    lemma_digits_order(ya, yb);
    lemma_digits_order(ma, mb);
    lemma_digits_order(da, db);
    if ya + (ma + da) == yb + (mb + db) {
        assert(ya == (ya + (ma + da)).subrange(0, 4));
        assert(yb == (yb + (mb + db)).subrange(0, 4));
        assert(ma == (ya + (ma + da)).subrange(4, 6));
        assert(mb == (yb + (mb + db)).subrange(4, 6));
        assert(da == (ya + (ma + da)).subrange(6, 8));
        assert(db == (yb + (mb + db)).subrange(6, 8));
    }
}

/// The sort key of the empty text is empty.
proof fn lemma_empty_key()
    ensures
        date_sort_key_spec(Seq::empty()) == Seq::<char>::empty(),
{
    assert(split_on(Seq::<char>::empty(), '/').len() == 1);
}

/// The date of a report row is latest by sort key: no matched date has a
/// later key, and it is one of the matched dates unless every key is empty.
pub proof fn lemma_latest_date_is_latest(dates: Seq<Seq<char>>)
    ensures
        forall|i: int|
            0 <= i < dates.len() ==> text_le(
                date_sort_key_spec(#[trigger] dates[i]),
                date_sort_key_spec(latest_date(dates)),
            ),
        latest_date(dates) == Seq::<char>::empty() || dates.contains(latest_date(dates)),
    decreases dates.len(),
{
    if dates.len() > 0 {
        let p = dates.drop_last();
        lemma_latest_date_is_latest(p);
        let prev = latest_date(p);
        let kp = date_sort_key_spec(prev);
        let kl = date_sort_key_spec(dates.last());
        lemma_text_lt_total(kp, kl);
        assert forall|i: int| 0 <= i < dates.len() implies text_le(
            date_sort_key_spec(#[trigger] dates[i]),
            date_sort_key_spec(latest_date(dates)),
        ) by {
            if i < dates.len() - 1 {
                assert(p[i] == dates[i]);
                let ki = date_sort_key_spec(dates[i]);
                if text_lt(kp, kl) && ki != kp {
                    lemma_text_lt_transitive(ki, kp, kl);
                }
            }
        }
        if !text_lt(kp, kl) && prev != Seq::<char>::empty() {
            let k = choose|k: int| 0 <= k < p.len() && p[k] == prev;
            assert(dates[k] == prev);
        }
    }
}

/// For `MM/DD/YYYY` dates, the date of a report row is the latest matched
/// date on the calendar.
pub proof fn lemma_report_date_is_calendar_latest(dates: Seq<Seq<char>>)
    requires
        dates.len() > 0,
        forall|i: int| 0 <= i < dates.len() ==> is_us_date(#[trigger] dates[i]),
    ensures
        dates.contains(latest_date(dates)),
        forall|i: int|
            0 <= i < dates.len() ==> !chronologically_before(latest_date(dates), #[trigger] dates[i]),
{
    let l = latest_date(dates);
    lemma_latest_date_is_latest(dates);
    lemma_us_date_key(dates[0]);
    lemma_empty_key();
    if l == Seq::<char>::empty() {
        assert(text_le(date_sort_key_spec(dates[0]), Seq::<char>::empty()));
        assert(date_sort_key_spec(dates[0]).len() == 8);
    }
    assert forall|i: int| 0 <= i < dates.len() implies !chronologically_before(
        l,
        #[trigger] dates[i],
    ) by {
        lemma_sort_key_chronological(l, dates[i]);
        lemma_text_lt_total(date_sort_key_spec(l), date_sort_key_spec(dates[i]));
        lemma_text_lt_irreflexive(date_sort_key_spec(l));
    }
}

/// Each row of a report comes from one filter that matched something, in
/// filter order, and every such filter has its row: row `k` carries the name
/// of filter `src[k]`, exactly that filter's matches and the latest of their
/// dates, for the strictly increasing indices `src` of the filters with
/// matches.
pub proof fn lemma_groups_follow_filters<A>(
    filters: Seq<Filter>,
    matches: Seq<Seq<Transaction<A>>>,
    n: nat,
) -> (src: Seq<int>)
    requires
        n <= filters.len(),
        n <= matches.len(),
    ensures
        src.len() == report_groups(filters, matches, n).len(),
        forall|k: int|
            0 <= k < src.len() ==> {
                let g = report_groups(filters, matches, n)[k];
                &&& 0 <= #[trigger] src[k] < n
                &&& matches[src[k]].len() > 0
                &&& g.filter_name == filters[src[k]].name@
                &&& g.transactions == matches[src[k]]
                &&& g.last_date == latest_date(dates_of(matches[src[k]]))
            },
        forall|k: int, l: int| 0 <= k < l < src.len() ==> src[k] < src[l],
        forall|i: int|
            0 <= i < n && matches[i].len() > 0 ==> exists|k: int|
                0 <= k < src.len() && #[trigger] src[k] == i,
    decreases n,
{
    if n == 0 {
        Seq::empty()
    } else {
        let prev = lemma_groups_follow_filters(filters, matches, (n - 1) as nat);
        let pg = report_groups(filters, matches, (n - 1) as nat);
        let m = matches[n - 1];
        if m.len() == 0 {
            assert(report_groups(filters, matches, n) == pg);
            assert forall|i: int| 0 <= i < n && matches[i].len() > 0 implies exists|k: int|
                0 <= k < prev.len() && #[trigger] prev[k] == i by {
                assert(i < n - 1);
            }
            prev
        } else {
            let src = prev.push(n - 1);
            let g = report_groups(filters, matches, n);
            assert forall|k: int| 0 <= k < src.len() implies {
                let gk = report_groups(filters, matches, n)[k];
                &&& 0 <= #[trigger] src[k] < n
                &&& matches[src[k]].len() > 0
                &&& gk.filter_name == filters[src[k]].name@
                &&& gk.transactions == matches[src[k]]
                &&& gk.last_date == latest_date(dates_of(matches[src[k]]))
            } by {
                if k < prev.len() {
                    assert(g[k] == pg[k]);
                    assert(src[k] == prev[k]);
                }
            }
            assert forall|k: int, l: int| 0 <= k < l < src.len() implies src[k] < src[l] by {
                assert(src[k] == prev[k]);
                if l < prev.len() {
                    assert(src[l] == prev[l]);
                }
            }
            assert forall|i: int| 0 <= i < n && matches[i].len() > 0 implies exists|k: int|
                0 <= k < src.len() && #[trigger] src[k] == i by {
                if i == n - 1 {
                    assert(src[src.len() - 1] == i);
                } else {
                    let k = choose|k: int| 0 <= k < prev.len() && #[trigger] prev[k] == i;
                    assert(src[k] == i);
                }
            }
            src
        }
    }
}

/// The ids of the transactions of each group, group by group.
pub open spec fn group_ids<A>(groups: Seq<GroupModel<A>>) -> Seq<i64>
    decreases groups.len(),
{
    if groups.len() == 0 {
        Seq::empty()
    } else {
        group_ids(groups.drop_last()) + ids_of(groups.last().transactions)
    }
}

/// A report marks as accounted exactly the transactions that its rows show,
/// in row order.
pub proof fn lemma_marked_are_reported<A>(
    filters: Seq<Filter>,
    matches: Seq<Seq<Transaction<A>>>,
    n: nat,
)
    requires
        n <= matches.len(),
        n <= filters.len(),
    ensures
        matched_ids(matches, n) == group_ids(report_groups(filters, matches, n)),
    decreases n,
{
    if n > 0 {
        lemma_marked_are_reported(filters, matches, (n - 1) as nat);
        let prev = report_groups(filters, matches, (n - 1) as nat);
        let m = matches[n - 1];
        if m.len() == 0 {
            assert(ids_of(m) == Seq::<i64>::empty());
            assert(matched_ids(matches, (n - 1) as nat) + ids_of(m) == matched_ids(
                matches,
                (n - 1) as nat,
            ));
        } else {
            let g = report_groups(filters, matches, n);
            assert(g.drop_last() == prev);
        }
    }
}

/// For `MM/DD/YYYY` dates and bounds, a date is within the range exactly
/// when it falls on or after the start and on or before the end on the
/// calendar.
pub proof fn lemma_date_range_is_calendar_range(
    date: Seq<char>,
    from: Option<Seq<char>>,
    to: Option<Seq<char>>,
)
    requires
        is_us_date(date),
        from matches Some(f) ==> is_us_date(f),
        to matches Some(t) ==> is_us_date(t),
    ensures
        in_date_range(date, from, to) == ((from matches Some(f) ==> !chronologically_before(
            date,
            f,
        )) && (to matches Some(t) ==> !chronologically_before(t, date))),
{
    if let Some(f) = from {
        lemma_sort_key_chronological(date, f);
    }
    if let Some(t) = to {
        lemma_sort_key_chronological(t, date);
    }
}

} // verus!
