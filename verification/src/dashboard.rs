//! Request parameters of the dashboard's commands.

use vstd::prelude::*;

use crate::store::Bucket;
use crate::text::str_eq;

verus! {

/// The time range of a request: `hours = 0` (or less) means all time,
/// since `Option` does not cross the UI boundary cleanly.
pub fn range(hours: i64) -> (r: Option<i64>)
    ensures
        r == if hours > 0 {
            Some(hours)
        } else {
            None
        },
{
    if hours > 0 {
        Some(hours)
    } else {
        None
    }
}

pub open spec fn bucket_spec(name: Seq<char>) -> Bucket {
    if name == "minute"@ {
        Bucket::Minute
    } else if name == "hour"@ {
        Bucket::Hour
    } else {
        Bucket::Day
    }
}

/// The bucket width named by a request; anything unknown means days.
pub fn parse_bucket(bucket: &str) -> (r: Bucket)
    ensures
        r == bucket_spec(bucket@),
{
    if str_eq(bucket, "minute") {
        Bucket::Minute
    } else if str_eq(bucket, "hour") {
        Bucket::Hour
    } else {
        Bucket::Day
    }
}

} // verus!
