//! Reports of visitors on whether a checked site works for them.
use vstd::prelude::*;

use crate::status::Status;

verus! {

/// The error of `sqlx::types::Uuid::try_parse`.
#[verifier::external_type_specification]
#[verifier::external_body]
pub struct ExUuidError(sqlx::types::uuid::Error);

/// The number of the UUID that a text spells, if `sqlx::types::Uuid::try_parse` takes the text
/// for one.
pub uninterp spec fn uuid_of(text: Seq<char>) -> Option<u128>;

/// Calls `sqlx::types::Uuid::try_parse`, and `as_u128` on the UUID that it gives. The result
/// depends on the text alone; which texts are UUIDs is not stated.
#[verifier::external_body]
fn try_parse_uuid(text: &str) -> (r: Result<u128, sqlx::types::uuid::Error>)
    ensures
        r is Ok <==> uuid_of(text@) is Some,
        r is Ok ==> uuid_of(text@) == Some(r->Ok_0),
{
    match sqlx::types::Uuid::try_parse(text) {
        Ok(id) => Ok(id.as_u128()),
        Err(e) => Err(e),
    }
}

/// A report to be stored: which check it is about, where it came from, and what it says.
#[derive(Debug)]
pub struct HumanReport {
    pub id: u128,
    pub source_ip: String,
    pub works: bool,
}

/// The report that a request makes about a check, if it names one.
pub open spec fn reported(id: Option<u128>, works: bool, source_ip: String) -> Result<
    HumanReport,
    Status,
> {
    match id {
        Some(id) => Ok(HumanReport { id, source_ip, works }),
        None => Err(Status::BadRequest),
    }
}

/// The report on the check with this number. Without a number the request is refused.
pub fn report_on(id: Option<u128>, works: bool, source_ip: String) -> (r: Result<
    HumanReport,
    Status,
>)
    ensures
        match id {
            Some(id) => r == Ok::<HumanReport, Status>(HumanReport { id, source_ip, works }),
            None => r == Err::<HumanReport, Status>(Status::BadRequest),
        },
        r == reported(id, works, source_ip),
{
    match id {
        Some(id) => Ok(HumanReport { id, source_ip, works }),
        None => Err(Status::BadRequest),
    }
}

/// The report to be stored for a request. The request is refused if it does not name a check by
/// a UUID.
pub fn feedback(uuid: &str, works: bool, source_ip: String) -> (r: Result<HumanReport, Status>)
    ensures
        match uuid_of(uuid@) {
            Some(id) => r == Ok::<HumanReport, Status>(HumanReport { id, source_ip, works }),
            None => r == Err::<HumanReport, Status>(Status::BadRequest),
        },
        r == reported(uuid_of(uuid@), works, source_ip),
{
    let id: Option<u128> = match try_parse_uuid(uuid) {
        Ok(id) => Some(id),
        Err(_) => None,
    };
    report_on(id, works, source_ip)
}

/// The answer once it is known whether the report was stored.
pub fn feedback_answer(stored: bool) -> (r: Result<(), Status>)
    ensures
        stored ==> r == Ok::<(), Status>(()),
        !stored ==> r == Err::<(), Status>(Status::InternalServerError),
{
    if stored {
        Ok(())
    } else {
        Err(Status::InternalServerError)
    }
}

/// Every check that is named gets its report, with what the request says and where it came from;
/// a request is refused exactly if it names none, and then as a bad request.
pub proof fn law_reports_say_what_was_said(id: Option<u128>, works: bool, source_ip: String)
    ensures
        match reported(id, works, source_ip) {
            Ok(report) => id == Some(report.id) && report.works == works && report.source_ip
                == source_ip,
            Err(status) => id is None && status == Status::BadRequest,
        },
{
}

} // verus!
