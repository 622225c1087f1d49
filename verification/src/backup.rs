//! Backups: everything the ledger stores (transactions, filters, settings)
//! as one document, and the steps that restore a database from one.
//!
//! Restoring replaces the three tables with the backup's contents; settings
//! are written in order (a later value for a key replaces an earlier one),
//! and a split count is added when the backup has none.

use vstd::prelude::*;
use crate::error::{AppError, ErrorModel};
use crate::settings::{DEFAULT_SPLIT_COUNT, SPLIT_COUNT_KEY};
use crate::text::{concat3, decimal, decimal_text};

verus! {

/// The backup format version this ledger writes and reads.
pub const BACKUP_VERSION: u32 = 1;

/// A transaction as a backup holds it (without its id).
#[derive(Debug)]
pub struct BackupTransaction<A> {
    pub date: String,
    pub description: String,
    pub amount: A,
    pub accounted: bool,
}

impl<A: Copy> BackupTransaction<A> {
    /// A backup transaction from its stored columns; any `accounted` value
    /// but 0 means accounted.
    pub fn from_columns(date: String, description: String, amount: A, accounted: i64) -> (t: Self)
        ensures
            t.date == date,
            t.description == description,
            t.amount == amount,
            t.accounted == (accounted != 0),
    {
        BackupTransaction { date, description, amount, accounted: accounted != 0 }
    }

    /// A copy of the transaction.
    pub fn copied(&self) -> (t: Self)
        ensures
            t == *self,
    {
        BackupTransaction {
            date: self.date.clone(),
            description: self.description.clone(),
            amount: self.amount,
            accounted: self.accounted,
        }
    }
}

/// A filter as a backup holds it (without its id).
#[derive(Debug)]
pub struct BackupFilter {
    pub name: String,
    pub pattern: String,
}

impl BackupFilter {
    /// A copy of the filter.
    pub fn copied(&self) -> (f: Self)
        ensures
            f == *self,
    {
        BackupFilter { name: self.name.clone(), pattern: self.pattern.clone() }
    }
}

/// A whole backup. `settings` lists key and value pairs.
#[derive(Debug)]
pub struct BackupData<A> {
    pub version: u32,
    pub exported_at: String,
    pub transactions: Vec<BackupTransaction<A>>,
    pub filters: Vec<BackupFilter>,
    pub settings: Vec<(String, String)>,
}

impl<A> BackupData<A> {
    /// A backup of the given rows, in the current format version.
    pub fn new(
        exported_at: String,
        transactions: Vec<BackupTransaction<A>>,
        filters: Vec<BackupFilter>,
        settings: Vec<(String, String)>,
    ) -> (d: Self)
        ensures
            d.version == BACKUP_VERSION,
            d.exported_at == exported_at,
            d.transactions == transactions,
            d.filters == filters,
            d.settings == settings,
    {
        BackupData { version: BACKUP_VERSION, exported_at, transactions, filters, settings }
    }
}

/// How much a restored backup brought in.
#[derive(Debug, PartialEq, Eq, Clone, Copy, Structural)]
pub struct ImportDbResult {
    pub transactions: usize,
    pub filters: usize,
    pub settings: usize,
}

/// Whether one of the settings has key `k`.
pub open spec fn key_seen(s: Seq<(String, String)>, k: Seq<char>) -> bool {
    exists|i: int| 0 <= i < s.len() && (#[trigger] s[i]).0@ == k
}

/// The number of distinct keys among the settings.
pub open spec fn distinct_key_count(s: Seq<(String, String)>) -> nat
    decreases s.len(),
{
    if s.len() == 0 {
        0
    } else {
        distinct_key_count(s.drop_last()) + if key_seen(s.drop_last(), s.last().0@) {
            0nat
        } else {
            1nat
        }
    }
}

/// The message for a backup in a format version this ledger cannot read.
pub open spec fn unsupported_version_message(v: u32) -> Seq<char> {
    "Unsupported backup version: "@ + decimal_text(v as int)
        + ". This version of Ledger supports version 1."@
}

/// Whether a backup can be restored, and what it brings in.
pub open spec fn check_backup_spec<A>(data: BackupData<A>) -> Result<ImportDbResult, ErrorModel> {
    if data.version != BACKUP_VERSION {
        Err(ErrorModel::Other(unsupported_version_message(data.version)))
    } else {
        Ok(
            ImportDbResult {
                transactions: data.transactions.len(),
                filters: data.filters.len(),
                settings: distinct_key_count(data.settings@) as usize,
            },
        )
    }
}

/// The number of distinct keys among the settings.
fn count_distinct_keys(s: &Vec<(String, String)>) -> (n: usize)
    ensures
        n == distinct_key_count(s@),
{
    let mut n: usize = 0;
    let mut i: usize = 0;
    while i < s.len()
        invariant
            i <= s.len(),
            n == distinct_key_count(s@.take(i as int)),
            n <= i,
        decreases s.len() - i,
    {
        let ghost prefix = s@.take(i as int);
        assert(s@.take(i + 1).drop_last() == prefix);
        assert(s@.take(i + 1).last() == s@[i as int]);
        let mut seen = false;
        let mut j: usize = 0;
        while j < i
            invariant
                j <= i < s.len(),
                prefix == s@.take(i as int),
                seen <==> exists|k: int| 0 <= k < j && (#[trigger] prefix[k]).0@ == s@[i as int].0@,
            decreases i - j,
        {
            if s[j].0 == s[i].0 {
                assert(prefix[j as int] == s@[j as int]);
                seen = true;
            }
            j = j + 1;
        }
        if !seen {
            n = n + 1;
        }
        i = i + 1;
    }
    assert(s@.take(s.len() as int) == s@);
    n
}

/// Checks that a backup can be restored, and counts what it brings in.
pub fn check_backup<A>(data: &BackupData<A>) -> (r: Result<ImportDbResult, AppError>)
    ensures
        match r {
            Ok(c) => check_backup_spec(*data) == Ok::<ImportDbResult, ErrorModel>(c),
            Err(e) => check_backup_spec(*data) == Err::<ImportDbResult, ErrorModel>(e@),
        },
        data.version == BACKUP_VERSION ==> (r matches Ok(c) && c.transactions
            == data.transactions.len() && c.filters == data.filters.len() && c.settings
            == distinct_key_count(data.settings@)),
        data.version != BACKUP_VERSION ==> (r matches Err(e) && e@ == ErrorModel::Other(
            unsupported_version_message(data.version),
        )),
{
    if data.version != BACKUP_VERSION {
        let v = decimal(data.version as i64);
        return Err(
            AppError::Other(
                concat3(
                    "Unsupported backup version: ",
                    v.as_str(),
                    ". This version of Ledger supports version 1.",
                ),
            ),
        );
    }
    Ok(
        ImportDbResult {
            transactions: data.transactions.len(),
            filters: data.filters.len(),
            settings: count_distinct_keys(&data.settings),
        },
    )
}

/// A backup in the current format version is accepted and counts one
/// transaction per transaction row, one filter per filter row and one
/// setting per distinct key (the size of the set of keys); a backup in any
/// other version is refused.
pub proof fn lemma_backup_counts<A>(data: BackupData<A>)
    ensures
        data.version == BACKUP_VERSION ==> (check_backup_spec(data) matches Ok(c)
            && c.transactions == data.transactions.len() && c.filters == data.filters.len()
            && c.settings == setting_keys(data.settings@).to_set().len()),
        data.version != BACKUP_VERSION ==> check_backup_spec(data) is Err,
        distinct_key_count(data.settings@) <= data.settings.len(),
{
    lemma_distinct_keys_at_most(data.settings@);
    lemma_distinct_keys_are_the_key_set(data.settings@);
    assert(data.settings@.len() == data.settings.len());
    assert(distinct_key_count(data.settings@) as usize == distinct_key_count(data.settings@));
}

/// The keys of the settings, in order.
pub open spec fn setting_keys(s: Seq<(String, String)>) -> Seq<Seq<char>> {
    s.map_values(|kv: (String, String)| kv.0@)
}

/// The settings count of a backup is the number of different keys among its
/// settings: the size of the set of their keys.
pub proof fn lemma_distinct_keys_are_the_key_set(s: Seq<(String, String)>)
    ensures
        distinct_key_count(s) == setting_keys(s).to_set().len(),
    decreases s.len(),
{
    broadcast use vstd::set::group_set_axioms;

    let ks = setting_keys(s);
    if s.len() == 0 {
        assert(ks.to_set() =~= Set::<Seq<char>>::empty());
    } else {
        let prev = s.drop_last();
        let k = s.last().0@;
        lemma_distinct_keys_are_the_key_set(prev);
        assert(ks == setting_keys(prev).push(k));
        setting_keys(prev).lemma_push_to_set_commute(k);
        vstd::seq_lib::seq_to_set_is_finite(setting_keys(prev));
        if key_seen(prev, k) {
            let i = choose|i: int| 0 <= i < prev.len() && (#[trigger] prev[i]).0@ == k;
            assert(setting_keys(prev)[i] == k);
            assert(setting_keys(prev).to_set().contains(k));
            assert(setting_keys(prev).to_set().insert(k) == setting_keys(prev).to_set());
        } else {
            assert(!setting_keys(prev).to_set().contains(k)) by {
                if setting_keys(prev).to_set().contains(k) {
                    let i = choose|i: int| 0 <= i < setting_keys(prev).len() && setting_keys(prev)[i] == k;
                    assert(prev[i].0@ == k);
                }
            }
        }
    }
}

/// There are no more distinct keys than settings.
proof fn lemma_distinct_keys_at_most(s: Seq<(String, String)>)
    ensures
        distinct_key_count(s) <= s.len(),
    decreases s.len(),
{
    if s.len() > 0 {
        lemma_distinct_keys_at_most(s.drop_last());
    }
}

/// One write of a restore.
#[derive(Debug)]
pub enum RestoreStep<A> {
    /// Delete every transaction.
    ClearTransactions,
    /// Delete every filter.
    ClearFilters,
    /// Delete every setting.
    ClearSettings,
    /// Add a transaction.
    InsertTransaction(BackupTransaction<A>),
    /// Add a filter.
    InsertFilter(BackupFilter),
    /// Set a key to a value, replacing any value it had.
    PutSetting(String, String),
    /// Set the split count to its default if it has no value.
    EnsureSplitCount,
}

/// The writes that restore `data`: clear the three tables, add the
/// transactions, the filters and the settings in order, then give the
/// split count its default if the backup had none.
pub open spec fn restore_steps<A>(data: BackupData<A>) -> Seq<RestoreStep<A>> {
    seq![RestoreStep::ClearTransactions, RestoreStep::ClearFilters, RestoreStep::ClearSettings]
        + data.transactions@.map_values(|t: BackupTransaction<A>| RestoreStep::InsertTransaction(t))
        + data.filters@.map_values(|f: BackupFilter| RestoreStep::InsertFilter(f))
        + data.settings@.map_values(|kv: (String, String)| RestoreStep::PutSetting(kv.0, kv.1))
        + seq![RestoreStep::EnsureSplitCount]
}

/// The writes that restore `data`, to be made in one database transaction.
pub fn restore_plan<A: Copy>(data: &BackupData<A>) -> (steps: Vec<RestoreStep<A>>)
    ensures
        steps@ == restore_steps(*data),
{
    let mut steps: Vec<RestoreStep<A>> = Vec::new();
    steps.push(RestoreStep::ClearTransactions);
    steps.push(RestoreStep::ClearFilters);
    steps.push(RestoreStep::ClearSettings);
    let ghost head = steps@;
    let ts = &data.transactions;
    let mut i: usize = 0;
    while i < ts.len()
        invariant
            i <= ts.len(),
            ts == &data.transactions,
            steps@ == head + ts@.take(i as int).map_values(
                |t: BackupTransaction<A>| RestoreStep::InsertTransaction(t),
            ),
        decreases ts.len() - i,
    {
        steps.push(RestoreStep::InsertTransaction(ts[i].copied()));
        i = i + 1;
        assert(ts@.take(i as int).map_values(
            |t: BackupTransaction<A>| RestoreStep::InsertTransaction(t),
        ) == ts@.take(i - 1).map_values(
            |t: BackupTransaction<A>| RestoreStep::InsertTransaction(t),
        ).push(RestoreStep::InsertTransaction(ts@[i - 1])));
    }
    assert(ts@.take(ts.len() as int) == ts@);
    let ghost head2 = steps@;
    let fs = &data.filters;
    let mut j: usize = 0;
    while j < fs.len()
        invariant
            j <= fs.len(),
            fs == &data.filters,
            steps@ == head2 + fs@.take(j as int).map_values(
                |f: BackupFilter| RestoreStep::<A>::InsertFilter(f),
            ),
        decreases fs.len() - j,
    {
        steps.push(RestoreStep::InsertFilter(fs[j].copied()));
        j = j + 1;
        assert(fs@.take(j as int).map_values(|f: BackupFilter| RestoreStep::<A>::InsertFilter(f))
            == fs@.take(j - 1).map_values(|f: BackupFilter| RestoreStep::<A>::InsertFilter(f)).push(
            RestoreStep::InsertFilter(fs@[j - 1]),
        ));
    }
    assert(fs@.take(fs.len() as int) == fs@);
    let ghost head3 = steps@;
    let ss = &data.settings;
    let mut k: usize = 0;
    while k < ss.len()
        invariant
            k <= ss.len(),
            ss == &data.settings,
            steps@ == head3 + ss@.take(k as int).map_values(
                |kv: (String, String)| RestoreStep::<A>::PutSetting(kv.0, kv.1),
            ),
        decreases ss.len() - k,
    {
        let key = ss[k].0.clone();
        let value = ss[k].1.clone();
        steps.push(RestoreStep::PutSetting(key, value));
        k = k + 1;
        assert(ss@.take(k as int).map_values(
            |kv: (String, String)| RestoreStep::<A>::PutSetting(kv.0, kv.1),
        ) == ss@.take(k - 1).map_values(
            |kv: (String, String)| RestoreStep::<A>::PutSetting(kv.0, kv.1),
        ).push(RestoreStep::PutSetting(ss@[k - 1].0, ss@[k - 1].1)));
    }
    assert(ss@.take(ss.len() as int) == ss@);
    steps.push(RestoreStep::EnsureSplitCount);
    steps
}

/// The three tables of the ledger, as the restore writes see them.
pub ghost struct TablesModel<A> {
    pub transactions: Seq<BackupTransaction<A>>,
    pub filters: Seq<BackupFilter>,
    pub settings: Map<Seq<char>, Seq<char>>,
}

/// The settings written in order into `m`, a later value for a key
/// replacing an earlier one.
pub open spec fn put_settings(
    m: Map<Seq<char>, Seq<char>>,
    s: Seq<(String, String)>,
) -> Map<Seq<char>, Seq<char>>
    decreases s.len(),
{
    if s.len() == 0 {
        m
    } else {
        put_settings(m, s.drop_last()).insert(s.last().0@, s.last().1@)
    }
}

/// The settings with the split count given its default if it has none.
pub open spec fn with_split_default(m: Map<Seq<char>, Seq<char>>) -> Map<Seq<char>, Seq<char>> {
    if m.dom().contains(SPLIT_COUNT_KEY@) {
        m
    } else {
        m.insert(SPLIT_COUNT_KEY@, DEFAULT_SPLIT_COUNT@)
    }
}

/// What one write does to the tables.
pub open spec fn apply_step<A>(m: TablesModel<A>, step: RestoreStep<A>) -> TablesModel<A> {
    match step {
        RestoreStep::ClearTransactions => TablesModel {
            transactions: Seq::empty(),
            filters: m.filters,
            settings: m.settings,
        },
        RestoreStep::ClearFilters => TablesModel {
            transactions: m.transactions,
            filters: Seq::empty(),
            settings: m.settings,
        },
        RestoreStep::ClearSettings => TablesModel {
            transactions: m.transactions,
            filters: m.filters,
            settings: Map::empty(),
        },
        RestoreStep::InsertTransaction(t) => TablesModel {
            transactions: m.transactions.push(t),
            filters: m.filters,
            settings: m.settings,
        },
        RestoreStep::InsertFilter(f) => TablesModel {
            transactions: m.transactions,
            filters: m.filters.push(f),
            settings: m.settings,
        },
        RestoreStep::PutSetting(k, v) => TablesModel {
            transactions: m.transactions,
            filters: m.filters,
            settings: m.settings.insert(k@, v@),
        },
        RestoreStep::EnsureSplitCount => TablesModel {
            transactions: m.transactions,
            filters: m.filters,
            settings: with_split_default(m.settings),
        },
    }
}

/// What a list of writes, made in order, does to the tables.
pub open spec fn apply_steps<A>(m: TablesModel<A>, steps: Seq<RestoreStep<A>>) -> TablesModel<A>
    decreases steps.len(),
{
    if steps.len() == 0 {
        m
    } else {
        apply_step(apply_steps(m, steps.drop_last()), steps.last())
    }
}

proof fn lemma_apply_concat<A>(m: TablesModel<A>, a: Seq<RestoreStep<A>>, b: Seq<RestoreStep<A>>)
    ensures
        apply_steps(m, a + b) == apply_steps(apply_steps(m, a), b),
    decreases b.len(),
{
    if b.len() == 0 {
        assert(a + b == a);
    } else {
        assert((a + b).drop_last() == a + b.drop_last());
        assert((a + b).last() == b.last());
        lemma_apply_concat(m, a, b.drop_last());
    }
}

proof fn lemma_apply_transactions<A>(m: TablesModel<A>, ts: Seq<BackupTransaction<A>>)
    ensures
        apply_steps(m, ts.map_values(|t: BackupTransaction<A>| RestoreStep::InsertTransaction(t)))
            == (TablesModel { transactions: m.transactions + ts, filters: m.filters, settings: m.settings }),
    decreases ts.len(),
{
    let steps = ts.map_values(|t: BackupTransaction<A>| RestoreStep::InsertTransaction(t));
    if ts.len() == 0 {
        assert(m.transactions + ts == m.transactions);
    } else {
        assert(steps.drop_last() == ts.drop_last().map_values(
            |t: BackupTransaction<A>| RestoreStep::InsertTransaction(t),
        ));
        lemma_apply_transactions(m, ts.drop_last());
        assert(m.transactions + ts == (m.transactions + ts.drop_last()).push(ts.last()));
    }
}

proof fn lemma_apply_filters<A>(m: TablesModel<A>, fs: Seq<BackupFilter>)
    ensures
        apply_steps(m, fs.map_values(|f: BackupFilter| RestoreStep::<A>::InsertFilter(f)))
            == (TablesModel { transactions: m.transactions, filters: m.filters + fs, settings: m.settings }),
    decreases fs.len(),
{
    let steps = fs.map_values(|f: BackupFilter| RestoreStep::<A>::InsertFilter(f));
    if fs.len() == 0 {
        assert(m.filters + fs == m.filters);
    } else {
        assert(steps.drop_last() == fs.drop_last().map_values(
            |f: BackupFilter| RestoreStep::<A>::InsertFilter(f),
        ));
        lemma_apply_filters(m, fs.drop_last());
        assert(m.filters + fs == (m.filters + fs.drop_last()).push(fs.last()));
    }
}

proof fn lemma_apply_settings<A>(m: TablesModel<A>, ss: Seq<(String, String)>)
    ensures
        apply_steps(
            m,
            ss.map_values(|kv: (String, String)| RestoreStep::<A>::PutSetting(kv.0, kv.1)),
        ) == (TablesModel {
            transactions: m.transactions,
            filters: m.filters,
            settings: put_settings(m.settings, ss),
        }),
    decreases ss.len(),
{
    let steps = ss.map_values(|kv: (String, String)| RestoreStep::<A>::PutSetting(kv.0, kv.1));
    if ss.len() > 0 {
        assert(steps.drop_last() == ss.drop_last().map_values(
            |kv: (String, String)| RestoreStep::<A>::PutSetting(kv.0, kv.1),
        ));
        lemma_apply_settings(m, ss.drop_last());
    }
}

/// A backup in the current format version is accepted, and restoring it
/// leaves, whatever the tables held before, exactly its transactions and
/// filters in its order, and its settings (the split count given its
/// default if the backup has none). Together with `BackupData::new`, this
/// is the round trip of export and import.
pub proof fn lemma_backup_round_trip<A>(m: TablesModel<A>, data: BackupData<A>)
    requires
        data.version == BACKUP_VERSION,
    ensures
        check_backup_spec(data) is Ok,
        apply_steps(m, restore_steps(data)) == (TablesModel {
            transactions: data.transactions@,
            filters: data.filters@,
            settings: with_split_default(put_settings(Map::empty(), data.settings@)),
        }),
{
    let clear = seq![
        RestoreStep::<A>::ClearTransactions,
        RestoreStep::<A>::ClearFilters,
        RestoreStep::<A>::ClearSettings,
    ];
    let ts = data.transactions@.map_values(
        |t: BackupTransaction<A>| RestoreStep::InsertTransaction(t),
    );
    let fs = data.filters@.map_values(|f: BackupFilter| RestoreStep::<A>::InsertFilter(f));
    let ss = data.settings@.map_values(
        |kv: (String, String)| RestoreStep::<A>::PutSetting(kv.0, kv.1),
    );
    let last = seq![RestoreStep::<A>::EnsureSplitCount];
    assert(restore_steps(data) == clear + ts + fs + ss + last);
    lemma_apply_concat(m, clear + ts + fs + ss, last);
    lemma_apply_concat(m, clear + ts + fs, ss);
    lemma_apply_concat(m, clear + ts, fs);
    lemma_apply_concat(m, clear, ts);
    let m0 = apply_steps(m, clear);
    assert(m0 == TablesModel::<A> {
        transactions: Seq::empty(),
        filters: Seq::empty(),
        settings: Map::empty(),
    }) by {
        reveal_with_fuel(apply_steps, 4);
        assert(clear.drop_last() == seq![
            RestoreStep::<A>::ClearTransactions,
            RestoreStep::<A>::ClearFilters,
        ]);
        assert(clear.drop_last().drop_last() == seq![RestoreStep::<A>::ClearTransactions]);
        assert(clear.drop_last().drop_last().drop_last() == Seq::<RestoreStep<A>>::empty());
    }
    lemma_apply_transactions(m0, data.transactions@);
    let m1 = apply_steps(m0, ts);
    assert(m1.transactions == data.transactions@);
    lemma_apply_filters(m1, data.filters@);
    let m2 = apply_steps(m1, fs);
    assert(m2.filters == data.filters@);
    lemma_apply_settings(m2, data.settings@);
    let m3 = apply_steps(m2, ss);
    assert(m3.settings == put_settings(Map::empty(), data.settings@));
    assert(last.drop_last() == Seq::<RestoreStep<A>>::empty());
    assert(apply_steps(m3, last) == apply_step(m3, RestoreStep::<A>::EnsureSplitCount)) by {
        reveal_with_fuel(apply_steps, 2);
        assert(last.last() == RestoreStep::<A>::EnsureSplitCount);
    }
}

} // verus!
