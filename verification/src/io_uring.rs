//! Ready-made responses.
use vstd::prelude::*;

verus! {

/// A response that borrows its parts.
pub struct Res<'res> {
    pub status_code: u16,
    pub content_type: &'res str,
    pub headers: &'res [(&'res str, &'res str)],
    pub body: &'res str,
}

impl<'res> Res<'res> {
    /// A plain text response with status 200.
    pub fn ok(body: &'res str) -> (res: Self)
        ensures
            res.status_code == 200,
            res.content_type@ == "text/plain"@,
            res.headers@.len() == 0,
            res.body == body,
    {
        Self { status_code: 200, content_type: "text/plain", headers: &[], body: body }
    }

    /// A plain text response with status 404.
    pub fn not_found() -> (res: Self)
        ensures
            res.status_code == 404,
            res.content_type@ == "text/plain"@,
            res.headers@.len() == 0,
            res.body@ == "Not Found"@,
    {
        Self { status_code: 404, content_type: "text/plain", headers: &[], body: "Not Found" }
    }
}

} // verus!
