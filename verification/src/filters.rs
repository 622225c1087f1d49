//! Named filters: a filter groups the transactions whose description holds
//! its pattern.

use vstd::prelude::*;
use crate::error::{AppError, ErrorModel};
use crate::text::{concat3, decimal, decimal_text};

verus! {

/// A named filter.
#[derive(Debug)]
pub struct Filter {
    pub id: i64,
    pub name: String,
    pub pattern: String,
}

impl Filter {
    /// A copy of the filter.
    pub fn copied(&self) -> (f: Self)
        ensures
            f == *self,
    {
        Filter { id: self.id, name: self.name.clone(), pattern: self.pattern.clone() }
    }
}

/// The message for a filter id that matches no stored filter.
pub open spec fn not_found_message(id: i64) -> Seq<char> {
    "filter with id "@ + decimal_text(id as int) + " not found"@
}

fn not_found(id: i64) -> (e: AppError)
    ensures
        e@ == ErrorModel::Other(not_found_message(id)),
{
    let n = decimal(id);
    AppError::Other(concat3("filter with id ", n.as_str(), " not found"))
}

/// The filter that an insert stored, from the row id the database gave it.
pub fn created_filter(id: i64, name: &str, pattern: &str) -> (f: Filter)
    ensures
        f.id == id,
        f.name@ == name@,
        f.pattern@ == pattern@,
{
    Filter { id, name: String::from_str(name), pattern: String::from_str(pattern) }
}

/// The outcome of updating filter `id`, from the number of rows that the
/// update changed: no row means there is no such filter.
pub fn update_outcome(id: i64, name: &str, pattern: &str, rows_affected: u64) -> (r: Result<
    Filter,
    AppError,
>)
    ensures
        rows_affected == 0 <==> r is Err,
        r matches Err(e) ==> e@ == ErrorModel::Other(not_found_message(id)),
        r matches Ok(f) ==> f.id == id && f.name@ == name@ && f.pattern@ == pattern@,
{
    if rows_affected == 0 {
        return Err(not_found(id));
    }
    Ok(created_filter(id, name, pattern))
}

/// The outcome of deleting filter `id`, from the number of rows that the
/// delete removed: no row means there is no such filter.
pub fn delete_outcome(id: i64, rows_affected: u64) -> (r: Result<(), AppError>)
    ensures
        rows_affected == 0 <==> r is Err,
        r matches Err(e) ==> e@ == ErrorModel::Other(not_found_message(id)),
{
    if rows_affected == 0 {
        return Err(not_found(id));
    }
    Ok(())
}

} // verus!
