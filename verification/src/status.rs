//! The status of a response.

use vstd::prelude::*;

verus! {

/// The status code of a partial response.
pub const PARTIAL_CONTENT: u16 = 206;

/// How `tk_http::Status::from` of a code is shown by its `Debug` format.
pub uninterp spec fn status_text(code: u16) -> Seq<char>;

/// Calls `tk_http::Status::from`. Claimed of it: the partial content status belongs to the
/// code 206 and to no other.
#[verifier::external_body]
pub(crate) fn is_partial_content(code: u16) -> (r: bool)
    ensures
        r == (code == PARTIAL_CONTENT),
{
    tk_http::Status::from(code) == Some(tk_http::Status::PartialContent)
}

/// Formats the result of `tk_http::Status::from` by its `Debug` format. Claimed of it: the
/// text depends on the code alone.
#[verifier::external_body]
pub(crate) fn show_status(code: u16) -> (r: String)
    ensures
        r@ == status_text(code),
{
    format!("{:?}", tk_http::Status::from(code))
}

/// The complaint about a status that is shown as `status`.
pub open spec fn status_complaint(status: Seq<char>) -> Seq<char> {
    "Server returned invalid status: "@ + status
}

/// Words the complaint about a status that is shown as `status`.
pub fn invalid_status(status: &str) -> (r: String)
    ensures
        r@ == status_complaint(status@),
{
    let mut message: String = "Server returned invalid status: ".to_owned();
    message.append(status);
    message
}

/// The complaint holds the status behind the words, and a partial response is one with the
/// code 206.
pub proof fn law_complaint(status: Seq<char>)
    ensures
        status_complaint(status).take(32) == "Server returned invalid status: "@,
        status_complaint(status).skip(32) == status,
        PARTIAL_CONTENT == 206,
{
    reveal_strlit("Server returned invalid status: ");
    assert(status_complaint(status).take(32) =~= "Server returned invalid status: "@);
    assert(status_complaint(status).skip(32) =~= status);
}

/// A call of `invalid_status` complains about the status that it is given.
pub proof fn law_invalid_status(status: &str, r: String)
    requires
        call_ensures(invalid_status, (status,), r),
    ensures
        r@.take(32) == "Server returned invalid status: "@,
        r@.skip(32) == status@,
{
    law_complaint(status@);
}

} // verus!
