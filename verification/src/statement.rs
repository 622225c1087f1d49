//! Bank statement (Chase CSV) rules: which export a file is, where its
//! columns are, and which rows are candidates for spend.
//!
//! Checking exports carry `Posting Date`, `Description` and `Amount`; credit
//! card exports carry `Transaction Date`, `Description`, `Type` and `Amount`,
//! and only their `Sale` rows are spend. The sign test on the amount and the
//! amount itself are decimal floating point, which the caller applies to the
//! rows handed back here.

use vstd::prelude::*;
use crate::error::{AppError, ErrorModel};
use crate::text::{
    concat2, decimal_digits, decimal_u64, remove_char, same_text, trim, trim_spec, without_char,
};

verus! {

broadcast use vstd::string::group_string_axioms;

/// The two statement exports.
#[derive(Debug, PartialEq, Eq, Clone, Copy, Structural)]
pub enum CsvFormat {
    Checking,
    CreditCard,
}

/// A spend transaction read from a statement; `amount` is positive.
#[derive(Debug)]
pub struct ParsedTransaction<A> {
    pub date: String,
    pub description: String,
    pub amount: A,
}

impl<A: Copy> ParsedTransaction<A> {
    /// A copy of the transaction.
    pub fn copied(&self) -> (t: Self)
        ensures
            t == *self,
    {
        ParsedTransaction {
            date: self.date.clone(),
            description: self.description.clone(),
            amount: self.amount,
        }
    }
}

/// One record of a CSV file: its fields, and where it starts (record
/// number, counting the header row as record 0; line; byte offset), when
/// the reader reports it.
#[derive(Debug)]
pub struct CsvRecord {
    pub fields: Vec<String>,
    pub position: Option<(u64, u64, u64)>,
}

/// What the CSV reader makes of a file: the header row (or why it could not
/// be read), the records read before the first unreadable one, and the
/// reason that one could not be read, if any.
#[derive(Debug)]
pub struct CsvTable {
    pub headers: Result<Vec<String>, String>,
    pub records: Vec<CsvRecord>,
    pub error: Option<String>,
}

/// A record as texts, with its position.
pub type RecordText = (Seq<Seq<char>>, Option<(u64, u64, u64)>);

/// The texts of a list of `String`s.
pub open spec fn texts(v: Seq<String>) -> Seq<Seq<char>> {
    v.map_values(|s: String| s@)
}

/// The texts and positions of the records.
pub open spec fn record_texts(v: Seq<CsvRecord>) -> Seq<RecordText> {
    v.map_values(|r: CsvRecord| (texts(r.fields@), r.position))
}

impl CsvTable {
    /// The table as texts.
    pub open spec fn model(&self) -> (
        Result<Seq<Seq<char>>, Seq<char>>,
        Seq<RecordText>,
        Option<Seq<char>>,
    ) {
        (
            match self.headers {
                Ok(h) => Ok(texts(h@)),
                Err(m) => Err(m@),
            },
            record_texts(self.records@),
            match self.error {
                Some(m) => Some(m@),
                None => None,
            },
        )
    }
}

/// What `csv::Reader` reads from the bytes of a file: a function of the
/// bytes alone.
pub uninterp spec fn csv_table(bytes: Seq<u8>) -> (
    Result<Seq<Seq<char>>, Seq<char>>,
    Seq<(Seq<Seq<char>>, Option<(u64, u64, u64)>)>,
    Option<Seq<char>>,
);

/// Reads CSV text with a `csv::Reader` built by
/// `csv::ReaderBuilder::new().flexible(true).from_reader`: the crate's
/// default dialect (comma separated, `"` quoting, first line is the header
/// row), except that the reader does not itself refuse records whose field
/// count differs from the header row's (the caller decides on them). It
/// takes `Reader::headers`, then `Reader::records` up to the first record
/// it cannot read; of each record its fields as text and its
/// `StringRecord::position` (record, line, byte). Each error is taken as
/// its message (`to_string`). The contract only names the outcome as a
/// function of the bytes; what the dialect accepts is left to the crate.
#[verifier::external_body]
fn read_csv(bytes: &[u8]) -> (t: CsvTable)
    ensures
        t.model() == csv_table(bytes@),
{
    let mut reader = csv::ReaderBuilder::new().flexible(true).from_reader(bytes);
    let headers = reader.headers().map(|h| h.iter().map(String::from).collect());
    let headers = headers.map_err(|e| e.to_string());
    let mut records = Vec::new();
    for row in reader.records() {
        match row {
            Ok(r) => records.push(CsvRecord {
                fields: r.iter().map(String::from).collect(),
                position: r.position().map(|p| (p.record(), p.line(), p.byte())),
            }),
            Err(e) => return CsvTable { headers, records, error: Some(e.to_string()) },
        }
    }
    CsvTable { headers, records, error: None }
}

/// Whether `name` is one of the headers.
pub open spec fn has_header(headers: Seq<Seq<char>>, name: Seq<char>) -> bool {
    exists|i: int| 0 <= i < headers.len() && headers[i] == name
}

/// The export that a header row belongs to: credit card exports have
/// `Transaction Date` and `Category`; everything else is read as checking.
pub open spec fn format_of(headers: Seq<Seq<char>>) -> CsvFormat {
    if has_header(headers, "Transaction Date"@) && has_header(headers, "Category"@) {
        CsvFormat::CreditCard
    } else {
        CsvFormat::Checking
    }
}

/// The texts of a list of `&str`.
pub open spec fn str_texts(v: Seq<&str>) -> Seq<Seq<char>> {
    v.map_values(|s: &str| s@)
}

/// Whether `name` is one of `headers`.
fn contains_header(headers: &[&str], name: &str) -> (r: bool)
    ensures
        r == has_header(str_texts(headers@), name@),
{
    let mut i: usize = 0;
    while i < headers.len()
        invariant
            i <= headers@.len(),
            forall|k: int| 0 <= k < i ==> headers@[k]@ != name@,
        decreases headers.len() - i,
    {
        if same_text(headers[i], name) {
            assert(str_texts(headers@)[i as int] == name@);
            return true;
        }
        i = i + 1;
    }
    assert forall|k: int| 0 <= k < str_texts(headers@).len() implies str_texts(headers@)[k]
        != name@ by {
        assert(str_texts(headers@)[k] == headers@[k]@);
    }
    false
}

/// Detects the Chase CSV format from the header row.
/// Credit card exports have "Transaction Date" and "Category";
/// checking exports have "Details" and "Balance".
pub fn detect_format(headers: &[&str]) -> (f: CsvFormat)
    ensures
        f == format_of(str_texts(headers@)),
{
    if contains_header(headers, "Transaction Date") && contains_header(headers, "Category") {
        CsvFormat::CreditCard
    } else {
        CsvFormat::Checking
    }
}

/// The first position of `field` among the headers.
pub open spec fn header_position(headers: Seq<Seq<char>>, field: Seq<char>) -> Option<int>
    decreases headers.len(),
{
    if headers.len() == 0 {
        None
    } else {
        match header_position(headers.drop_last(), field) {
            Some(i) => Some(i),
            None => if headers.last() == field {
                Some(headers.len() - 1)
            } else {
                None
            },
        }
    }
}

/// The trimmed value of column `field` in `record`, or why there is none.
pub open spec fn field_value(
    headers: Seq<Seq<char>>,
    record: Seq<Seq<char>>,
    field: Seq<char>,
) -> Result<Seq<char>, ErrorModel> {
    match header_position(headers, field) {
        None => Err(ErrorModel::Csv("missing column: "@ + field)),
        Some(i) => if i < record.len() {
            Ok(trim_spec(record[i]))
        } else {
            Err(ErrorModel::Csv("missing value for column: "@ + field))
        },
    }
}

/// The value of column `field` in `record`, trimmed.
pub fn get_field(record: &Vec<String>, headers: &Vec<String>, field: &str) -> (r: Result<
    String,
    AppError,
>)
    ensures
        match r {
            Ok(v) => field_value(texts(headers@), texts(record@), field@) == Ok::<
                Seq<char>,
                ErrorModel,
            >(v@),
            Err(e) => field_value(texts(headers@), texts(record@), field@) == Err::<
                Seq<char>,
                ErrorModel,
            >(e@),
        },
{
    let ghost hs = texts(headers@);
    let mut i: usize = 0;
    while i < headers.len()
        invariant
            i <= headers.len(),
            hs == texts(headers@),
            header_position(hs.take(i as int), field@) is None,
        decreases headers.len() - i,
    {
        assert(hs.take(i + 1).drop_last() == hs.take(i as int));
        if same_text(headers[i].as_str(), field) {
            assert(hs.take(i + 1).last() == field@);
            proof {
                lemma_position_extends(hs, field@, (i + 1) as int);
            }
            if i < record.len() {
                let v = trim(record[i].as_str());
                assert(texts(record@)[i as int] == record@[i as int]@);
                return Ok(v);
            } else {
                return Err(AppError::Csv(concat2("missing value for column: ", field)));
            }
        }
        i = i + 1;
    }
    assert(hs.take(headers.len() as int) == hs);
    Err(AppError::Csv(concat2("missing column: ", field)))
}

/// A position found in a prefix stays the position in the whole.
proof fn lemma_position_extends(hs: Seq<Seq<char>>, field: Seq<char>, n: int)
    requires
        0 <= n <= hs.len(),
        header_position(hs.take(n), field) is Some,
    ensures
        header_position(hs, field) == header_position(hs.take(n), field),
    decreases hs.len() - n,
{
    if n < hs.len() {
        assert(hs.take(n + 1).drop_last() == hs.take(n));
        lemma_position_extends(hs, field, n + 1);
    } else {
        assert(hs.take(n) == hs);
    }
}

/// A statement row that may be spend: its trimmed date, description and
/// amount text, and whether its type is one that counts as spend (every
/// checking row; `Sale` rows of a credit card export).
#[derive(Debug)]
pub struct StatementRow {
    pub date: String,
    pub description: String,
    pub amount: String,
    pub is_sale: bool,
}

/// A [`StatementRow`] as texts.
pub ghost struct RowModel {
    pub date: Seq<char>,
    pub description: Seq<char>,
    pub amount: Seq<char>,
    pub is_sale: bool,
}

impl View for StatementRow {
    type V = RowModel;

    open spec fn view(&self) -> RowModel {
        RowModel {
            date: self.date@,
            description: self.description@,
            amount: self.amount@,
            is_sale: self.is_sale,
        }
    }
}

/// The message that a strict CSV reader gives for a record with `len`
/// fields where the header row has `expected`.
pub open spec fn field_count_message(
    position: Option<(u64, u64, u64)>,
    len: nat,
    expected: nat,
) -> Seq<char> {
    let counts = "found record with "@ + decimal_digits(len) + " fields, but the previous record has "@
        + decimal_digits(expected) + " fields"@;
    match position {
        Some((r, l, b)) => "CSV error: record "@ + decimal_digits(r as nat) + " (line: "@
            + decimal_digits(l as nat) + ", byte: "@ + decimal_digits(b as nat) + "): "@ + counts,
        None => "CSV error: "@ + counts,
    }
}

/// The row read from one record. A record with fewer fields than the header
/// row is refused as a strict reader refuses it (longer ones, as bank
/// exports with trailing commas have, are read); then the first missing
/// column or value counts, in the order date, description, amount (and type
/// for credit card exports).
pub open spec fn record_row(
    format: CsvFormat,
    headers: Seq<Seq<char>>,
    entry: RecordText,
) -> Result<RowModel, ErrorModel> {
    let record = entry.0;
    if record.len() < headers.len() {
        Err(ErrorModel::Csv(field_count_message(entry.1, record.len(), headers.len())))
    } else {
        record_fields(format, headers, record)
    }
}

/// The row held by the fields of a record, or the first missing column or
/// value, in the order date, description, amount (and type for credit card
/// exports).
pub open spec fn record_fields(
    format: CsvFormat,
    headers: Seq<Seq<char>>,
    record: Seq<Seq<char>>,
) -> Result<RowModel, ErrorModel> {
    let date_column = match format {
        CsvFormat::Checking => "Posting Date"@,
        CsvFormat::CreditCard => "Transaction Date"@,
    };
    match field_value(headers, record, date_column) {
        Err(e) => Err(e),
        Ok(date) => match field_value(headers, record, "Description"@) {
            Err(e) => Err(e),
            Ok(description) => match field_value(headers, record, "Amount"@) {
                Err(e) => Err(e),
                Ok(amount) => match format {
                    CsvFormat::Checking => Ok(
                        RowModel { date, description, amount, is_sale: true },
                    ),
                    CsvFormat::CreditCard => match field_value(headers, record, "Type"@) {
                        Err(e) => Err(e),
                        Ok(kind) => Ok(
                            RowModel { date, description, amount, is_sale: kind == "Sale"@ },
                        ),
                    },
                },
            },
        },
    }
}

/// The rows of the records read in order, up to the first record that
/// is refused, and that record's error.
pub open spec fn scan_rows(
    format: CsvFormat,
    headers: Seq<Seq<char>>,
    records: Seq<RecordText>,
) -> (Seq<RowModel>, Option<ErrorModel>)
    decreases records.len(),
{
    if records.len() == 0 {
        (Seq::empty(), None)
    } else {
        let (rows, error) = scan_rows(format, headers, records.drop_last());
        if error is Some {
            (rows, error)
        } else {
            match record_row(format, headers, records.last()) {
                Ok(row) => (rows.push(row), None),
                Err(e) => (rows, Some(e)),
            }
        }
    }
}

/// What a statement yields: the candidate rows before the first failure,
/// and the failure, if any: an unreadable header row, a missing column or
/// value, or an unreadable record, whichever comes first.
pub open spec fn scan_spec(
    table: (Result<Seq<Seq<char>>, Seq<char>>, Seq<RecordText>, Option<Seq<char>>),
) -> (Seq<RowModel>, Option<ErrorModel>) {
    match table.0 {
        Err(m) => (Seq::empty(), Some(ErrorModel::Csv(m))),
        Ok(headers) => {
            let (rows, error) = scan_rows(format_of(headers), headers, table.1);
            if error is Some {
                (rows, error)
            } else {
                match table.2 {
                    Some(m) => (rows, Some(ErrorModel::Csv(m))),
                    None => (rows, None),
                }
            }
        },
    }
}

/// The candidate rows of a statement and the failure that ended the
/// reading, if any.
#[derive(Debug)]
pub struct StatementScan {
    pub rows: Vec<StatementRow>,
    pub error: Option<AppError>,
}

impl StatementScan {
    /// The scan as texts.
    pub open spec fn model(&self) -> (Seq<RowModel>, Option<ErrorModel>) {
        (
            self.rows@.map_values(|r: StatementRow| r@),
            match self.error {
                Some(e) => Some(e@),
                None => None,
            },
        )
    }
}

/// The message that a strict CSV reader gives for a record with `len`
/// fields where the header row has `expected`.
fn field_count_error(position: Option<(u64, u64, u64)>, len: u64, expected: u64) -> (m: String)
    ensures
        m@ == field_count_message(position, len as nat, expected as nat),
{
    let mut m = String::new();
    match position {
        Some((r, l, b)) => {
            m.append("CSV error: record ");
            m.append(decimal_u64(r).as_str());
            m.append(" (line: ");
            m.append(decimal_u64(l).as_str());
            m.append(", byte: ");
            m.append(decimal_u64(b).as_str());
            m.append("): ");
        },
        None => {
            m.append("CSV error: ");
        },
    }
    m.append("found record with ");
    m.append(decimal_u64(len).as_str());
    m.append(" fields, but the previous record has ");
    m.append(decimal_u64(expected).as_str());
    m.append(" fields");
    m
}

/// Reads one record as a candidate row.
pub fn scan_record(format: CsvFormat, headers: &Vec<String>, record: &CsvRecord) -> (r: Result<
    StatementRow,
    AppError,
>)
    ensures
        match r {
            Ok(row) => record_row(format, texts(headers@), (texts(record.fields@), record.position))
                == Ok::<RowModel, ErrorModel>(row@),
            Err(e) => record_row(format, texts(headers@), (texts(record.fields@), record.position))
                == Err::<RowModel, ErrorModel>(e@),
        },
{
    let fields = &record.fields;
    if fields.len() < headers.len() {
        return Err(
            AppError::Csv(
                field_count_error(record.position, fields.len() as u64, headers.len() as u64),
            ),
        );
    }
    let date_column = match format {
        CsvFormat::Checking => "Posting Date",
        CsvFormat::CreditCard => "Transaction Date",
    };
    let date = get_field(fields, headers, date_column)?;
    let description = get_field(fields, headers, "Description")?;
    let amount = get_field(fields, headers, "Amount")?;
    match format {
        CsvFormat::Checking => Ok(StatementRow { date, description, amount, is_sale: true }),
        CsvFormat::CreditCard => {
            let kind = get_field(fields, headers, "Type")?;
            let is_sale = same_text(kind.as_str(), "Sale");
            Ok(StatementRow { date, description, amount, is_sale })
        },
    }
}

/// Once a prefix of the records has failed, the rest is not read.
proof fn lemma_scan_stops(
    format: CsvFormat,
    headers: Seq<Seq<char>>,
    records: Seq<RecordText>,
    n: int,
)
    requires
        0 <= n <= records.len(),
        scan_rows(format, headers, records.take(n)).1 is Some,
    ensures
        scan_rows(format, headers, records) == scan_rows(format, headers, records.take(n)),
    decreases records.len() - n,
{
    if n < records.len() {
        assert(records.take(n + 1).drop_last() == records.take(n));
        lemma_scan_stops(format, headers, records, n + 1);
    } else {
        assert(records.take(n) == records);
    }
}

/// Reads the candidate rows of a table that the CSV reader produced.
pub fn scan_table(table: &CsvTable) -> (s: StatementScan)
    ensures
        s.model() == scan_spec(table.model()),
{
    let headers = match &table.headers {
        Err(m) => {
            let s = StatementScan { rows: Vec::new(), error: Some(AppError::Csv(m.clone())) };
            assert(s.model().0 == Seq::<RowModel>::empty());
            return s;
        },
        Ok(h) => h,
    };
    let ghost hs = texts(headers@);
    let mut names: Vec<&str> = Vec::new();
    let mut k: usize = 0;
    while k < headers.len()
        invariant
            k <= headers.len(),
            names@.len() == k,
            forall|j: int| 0 <= j < k ==> names@[j]@ == headers@[j]@,
        decreases headers.len() - k,
    {
        names.push(headers[k].as_str());
        k = k + 1;
    }
    assert(str_texts(names@) == hs);
    let format = detect_format(names.as_slice());
    let ghost recs = record_texts(table.records@);
    let mut rows: Vec<StatementRow> = Vec::new();
    let mut i: usize = 0;
    while i < table.records.len()
        invariant
            i <= table.records.len(),
            hs == texts(headers@),
            recs == record_texts(table.records@),
            format == format_of(hs),
            table.headers == Ok::<Vec<String>, String>(*headers),
            rows@.map_values(|r: StatementRow| r@) == scan_rows(format, hs, recs.take(i as int)).0,
            scan_rows(format, hs, recs.take(i as int)).1 is None,
        decreases table.records.len() - i,
    {
        assert(recs.take(i + 1).drop_last() == recs.take(i as int));
        assert(recs.take(i + 1).last() == (
            texts(table.records@[i as int].fields@),
            table.records@[i as int].position,
        ));
        match scan_record(format, headers, &table.records[i]) {
            Ok(row) => {
                rows.push(row);
                assert(rows@.map_values(|r: StatementRow| r@) == scan_rows(
                    format,
                    hs,
                    recs.take(i + 1),
                ).0);
            },
            Err(e) => {
                proof {
                    lemma_scan_stops(format, hs, recs, i + 1);
                }
                return StatementScan { rows, error: Some(e) };
            },
        }
        i = i + 1;
    }
    assert(recs.take(table.records.len() as int) == recs);
    let error = match &table.error {
        Some(m) => Some(AppError::Csv(m.clone())),
        None => None,
    };
    StatementScan { rows, error }
}

/// Reads the candidate rows of the bytes of a statement file.
pub fn scan_statement(bytes: &[u8]) -> (s: StatementScan)
    ensures
        s.model() == scan_spec(csv_table(bytes@)),
{
    let table = read_csv(bytes);
    scan_table(&table)
}

/// The amount text as the number parser takes it: trimmed, with the
/// thousands separators (`,`) taken out.
pub fn normalize_amount(s: &str) -> (r: String)
    ensures
        r@ == without_char(trim_spec(s@), ','),
{
    let t = trim(s);
    remove_char(t.as_str(), ',')
}

/// An amount as read from a row's amount text: whether it is spend
/// (negative) and its magnitude.
#[derive(Debug)]
pub struct ParsedAmount<A> {
    pub spend: bool,
    pub magnitude: A,
}

/// The spend transactions of the first `n` rows, given what each row's
/// amount text reads as (`None`: not a number). A row is kept when its type
/// counts as spend and its amount is spend; it is kept with the magnitude.
/// The first row whose amount is not a number ends the reading.
pub open spec fn spend_rows<A>(
    rows: Seq<RowModel>,
    amounts: Seq<Option<ParsedAmount<A>>>,
    n: nat,
) -> Result<Seq<(Seq<char>, Seq<char>, A)>, ErrorModel>
    decreases n,
{
    if n == 0 {
        Ok(Seq::empty())
    } else {
        match spend_rows(rows, amounts, (n - 1) as nat) {
            Err(e) => Err(e),
            Ok(kept) => {
                let row = rows[n - 1];
                match amounts[n - 1] {
                    None => Err(ErrorModel::Csv("invalid amount: "@ + row.amount)),
                    Some(a) => if row.is_sale && a.spend {
                        Ok(kept.push((row.date, row.description, a.magnitude)))
                    } else {
                        Ok(kept)
                    },
                }
            },
        }
    }
}

/// The spend transactions of a statement: those of its rows, unless a row's
/// amount is not a number or the statement could not be read to its end,
/// whichever comes first.
pub open spec fn statement_spend<A>(
    scan: (Seq<RowModel>, Option<ErrorModel>),
    amounts: Seq<Option<ParsedAmount<A>>>,
) -> Result<Seq<(Seq<char>, Seq<char>, A)>, ErrorModel> {
    match spend_rows(scan.0, amounts, scan.0.len()) {
        Err(e) => Err(e),
        Ok(kept) => match scan.1 {
            Some(e) => Err(e),
            None => Ok(kept),
        },
    }
}

/// The transactions as (date, description, amount).
pub open spec fn parsed_model<A>(ts: Seq<ParsedTransaction<A>>) -> Seq<(Seq<char>, Seq<char>, A)> {
    ts.map_values(|t: ParsedTransaction<A>| (t.date@, t.description@, t.amount))
}

/// The spend transactions of a scanned statement; `amounts[i]` is what the
/// amount text of row `i` (after `normalize_amount`) reads as.
pub fn select_spend<A: Copy>(scan: &StatementScan, amounts: &Vec<Option<ParsedAmount<A>>>) -> (r:
    Result<Vec<ParsedTransaction<A>>, AppError>)
    requires
        amounts.len() == scan.rows.len(),
    ensures
        match r {
            Ok(ts) => statement_spend(scan.model(), amounts@) == Ok::<
                Seq<(Seq<char>, Seq<char>, A)>,
                ErrorModel,
            >(parsed_model(ts@)),
            Err(e) => statement_spend(scan.model(), amounts@) == Err::<
                Seq<(Seq<char>, Seq<char>, A)>,
                ErrorModel,
            >(e@),
        },
{
    let ghost rows = scan.model().0;
    let mut out: Vec<ParsedTransaction<A>> = Vec::new();
    let mut i: usize = 0;
    assert(parsed_model(out@) == Seq::<(Seq<char>, Seq<char>, A)>::empty());
    while i < scan.rows.len()
        invariant
            i <= scan.rows.len() == amounts.len(),
            rows == scan.model().0,
            spend_rows(rows, amounts@, i as nat) == Ok::<
                Seq<(Seq<char>, Seq<char>, A)>,
                ErrorModel,
            >(parsed_model(out@)),
        decreases scan.rows.len() - i,
    {
        let row = &scan.rows[i];
        assert(rows[i as int] == row@);
        match &amounts[i] {
            None => {
                proof {
                    lemma_spend_stops(rows, amounts@, (i + 1) as nat);
                }
                return Err(AppError::Csv(concat2("invalid amount: ", row.amount.as_str())));
            },
            Some(a) => {
                if row.is_sale && a.spend {
                    out.push(
                        ParsedTransaction {
                            date: row.date.clone(),
                            description: row.description.clone(),
                            amount: a.magnitude,
                        },
                    );
                    assert(parsed_model(out@) == spend_rows(rows, amounts@, i as nat)->Ok_0.push(
                        (row.date@, row.description@, a.magnitude),
                    ));
                }
            },
        }
        i = i + 1;
    }
    match &scan.error {
        Some(e) => Err(e.copied()),
        None => Ok(out),
    }
}

/// The spend of a statement is read to the end exactly when every amount is
/// a number; then each kept transaction comes from a row whose type counts
/// as spend (`is_sale`: every checking row, `Sale` rows of a credit card
/// export) and whose amount is spend, with that row's date, description and
/// magnitude, in row order, and every such row is kept: row `src[k]` gives
/// transaction `k`, for the strictly increasing indices `src` of those rows.
pub proof fn lemma_spend_is_sales_with_spend_amounts<A>(
    rows: Seq<RowModel>,
    amounts: Seq<Option<ParsedAmount<A>>>,
    n: nat,
) -> (src: Seq<int>)
    requires
        n <= rows.len(),
        n <= amounts.len(),
    ensures
        (spend_rows(rows, amounts, n) is Ok) == (forall|i: int|
            0 <= i < n ==> (#[trigger] amounts[i]) is Some),
        spend_rows(rows, amounts, n) is Ok ==> {
            let kept = spend_rows(rows, amounts, n)->Ok_0;
            &&& src.len() == kept.len()
            &&& forall|k: int|
                0 <= k < src.len() ==> {
                    &&& 0 <= #[trigger] src[k] < n
                    &&& rows[src[k]].is_sale
                    &&& amounts[src[k]] matches Some(a) && a.spend && kept[k] == (
                        rows[src[k]].date,
                        rows[src[k]].description,
                        a.magnitude,
                    )
                }
            &&& forall|k: int, l: int| 0 <= k < l < src.len() ==> src[k] < src[l]
            &&& forall|i: int|
                0 <= i < n && rows[i].is_sale && (amounts[i] matches Some(a) && a.spend)
                    ==> exists|k: int| 0 <= k < src.len() && #[trigger] src[k] == i
        },
    decreases n,
{
    if n == 0 {
        Seq::empty()
    } else {
        let prev = lemma_spend_is_sales_with_spend_amounts(rows, amounts, (n - 1) as nat);
        let r = spend_rows(rows, amounts, n);
        let pr = spend_rows(rows, amounts, (n - 1) as nat);
        let row = rows[n - 1];
        if pr is Err {
            assert(r is Err);
            assert(!(forall|i: int| 0 <= i < n ==> (#[trigger] amounts[i]) is Some)) by {
                let j = choose|j: int| 0 <= j < n - 1 && !((#[trigger] amounts[j]) is Some);
                assert(!(amounts[j] is Some));
            }
            prev
        } else {
            match amounts[n - 1] {
                None => {
                    assert(r is Err);
                    assert(!(amounts[n - 1] is Some));
                    prev
                },
                Some(a) => {
                    assert forall|i: int| 0 <= i < n implies (#[trigger] amounts[i]) is Some by {
                        if i < n - 1 {
                            assert(amounts[i] is Some);
                        }
                    }
                    let kept = pr->Ok_0;
                    if row.is_sale && a.spend {
                        let src = prev.push(n - 1);
                        let nk = r->Ok_0;
                        assert(nk == kept.push((row.date, row.description, a.magnitude)));
                        assert forall|k: int| 0 <= k < src.len() implies {
                            &&& 0 <= #[trigger] src[k] < n
                            &&& rows[src[k]].is_sale
                            &&& amounts[src[k]] matches Some(b) && b.spend && nk[k] == (
                                rows[src[k]].date,
                                rows[src[k]].description,
                                b.magnitude,
                            )
                        } by {
                            if k < prev.len() {
                                assert(src[k] == prev[k]);
                                assert(nk[k] == kept[k]);
                            }
                        }
                        assert forall|k: int, l: int| 0 <= k < l < src.len() implies src[k]
                            < src[l] by {
                            assert(src[k] == prev[k]);
                            if l < prev.len() {
                                assert(src[l] == prev[l]);
                            }
                        }
                        assert forall|i: int|
                            0 <= i < n && rows[i].is_sale && (amounts[i] matches Some(b)
                                && b.spend) implies exists|k: int|
                            0 <= k < src.len() && #[trigger] src[k] == i by {
                            if i == n - 1 {
                                assert(src[src.len() - 1] == i);
                            } else {
                                let k = choose|k: int| 0 <= k < prev.len() && #[trigger] prev[k] == i;
                                assert(src[k] == i);
                            }
                        }
                        src
                    } else {
                        assert(r->Ok_0 == kept);
                        assert forall|i: int|
                            0 <= i < n && rows[i].is_sale && (amounts[i] matches Some(b)
                                && b.spend) implies exists|k: int|
                            0 <= k < prev.len() && #[trigger] prev[k] == i by {
                            assert(i < n - 1);
                        }
                        prev
                    }
                },
            }
        }
    }
}

/// A statement's spend is read exactly when the whole statement could be
/// read and every row's amount is a number; then it is the spend of all its
/// rows.
pub proof fn lemma_statement_spend_read<A>(
    scan: (Seq<RowModel>, Option<ErrorModel>),
    amounts: Seq<Option<ParsedAmount<A>>>,
)
    requires
        amounts.len() == scan.0.len(),
    ensures
        (statement_spend(scan, amounts) is Ok) == (scan.1 is None && forall|i: int|
            0 <= i < scan.0.len() ==> (#[trigger] amounts[i]) is Some),
        statement_spend(scan, amounts) is Ok ==> statement_spend(scan, amounts)
            == spend_rows(scan.0, amounts, scan.0.len()),
{
    lemma_spend_is_sales_with_spend_amounts(scan.0, amounts, scan.0.len());
}

/// Row `k` of a scan is read from record `k`: no record is skipped, the
/// rows stop at the first refused record, and that record's refusal is the
/// scan's error.
pub proof fn lemma_rows_come_from_records(
    format: CsvFormat,
    headers: Seq<Seq<char>>,
    records: Seq<RecordText>,
)
    ensures
        scan_rows(format, headers, records).0.len() <= records.len(),
        forall|k: int|
            0 <= k < scan_rows(format, headers, records).0.len() ==> record_row(
                format,
                headers,
                #[trigger] records[k],
            ) == Ok::<RowModel, ErrorModel>(scan_rows(format, headers, records).0[k]),
        scan_rows(format, headers, records).1 is None ==> scan_rows(format, headers, records).0.len()
            == records.len(),
        scan_rows(format, headers, records).1 matches Some(e) ==> {
            let n = scan_rows(format, headers, records).0.len();
            &&& n < records.len()
            &&& record_row(format, headers, records[n as int]) == Err::<RowModel, ErrorModel>(e)
        },
    decreases records.len(),
{
    if records.len() > 0 {
        let init = records.drop_last();
        lemma_rows_come_from_records(format, headers, init);
        let (rows, error) = scan_rows(format, headers, init);
        assert forall|k: int| 0 <= k < rows.len() implies #[trigger] records[k] == init[k] by {}
        if error is None {
            assert(records.last() == records[init.len() as int]);
        }
    }
}

/// A row read from a record has the trimmed values of its date, description
/// and amount columns; every checking row counts as spend, and a credit card
/// row counts as spend exactly when its `Type` column reads `Sale`. A record
/// with fewer fields than the header row gives no row.
pub proof fn lemma_row_fields(format: CsvFormat, headers: Seq<Seq<char>>, entry: RecordText)
    ensures
        record_row(format, headers, entry) matches Ok(row) ==> {
            &&& entry.0.len() >= headers.len()
            &&& field_value(headers, entry.0, "Description"@) == Ok::<Seq<char>, ErrorModel>(
                row.description,
            )
            &&& field_value(headers, entry.0, "Amount"@) == Ok::<Seq<char>, ErrorModel>(
                row.amount,
            )
            &&& format == CsvFormat::Checking ==> row.is_sale && field_value(
                headers,
                entry.0,
                "Posting Date"@,
            ) == Ok::<Seq<char>, ErrorModel>(row.date)
            &&& format == CsvFormat::CreditCard ==> field_value(
                headers,
                entry.0,
                "Transaction Date"@,
            ) == Ok::<Seq<char>, ErrorModel>(row.date) && (row.is_sale <==> field_value(
                headers,
                entry.0,
                "Type"@,
            ) == Ok::<Seq<char>, ErrorModel>("Sale"@))
        },
{
}

/// Once a row's amount is not a number, the later rows do not count.
proof fn lemma_spend_stops<A>(rows: Seq<RowModel>, amounts: Seq<Option<ParsedAmount<A>>>, n: nat)
    requires
        n <= rows.len() <= amounts.len(),
        spend_rows(rows, amounts, n) is Err,
    ensures
        spend_rows(rows, amounts, rows.len()) == spend_rows(rows, amounts, n),
    decreases rows.len() - n,
{
    if n < rows.len() {
        lemma_spend_stops(rows, amounts, n + 1);
    }
}

} // verus!
