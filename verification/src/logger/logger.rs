use vstd::prelude::*;

verus! {

/// The outcome of a statement: on success an optional table (rows of cells) and an optional
/// message; on failure an error message.
pub struct RuaResult {
    res: Result<(Option<Vec<Vec<String>>>, Option<String>), String>,
}

impl RuaResult {
    /// The outcome itself.
    pub closed spec fn spec_res(&self) -> Result<(Option<Vec<Vec<String>>>, Option<String>), String> {
        self.res
    }

    /// Success with neither table nor message.
    pub fn default() -> (r: Self)
        ensures
            r.spec_res() == Ok::<(Option<Vec<Vec<String>>>, Option<String>), String>((None, None)),
    {
        Self { res: Ok((None, None)) }
    }

    /// Success with an optional table and a message.
    pub fn ok(v: Option<Vec<Vec<String>>>, e: String) -> (r: Self)
        ensures
            r.spec_res() == Ok::<(Option<Vec<Vec<String>>>, Option<String>), String>((v, Some(e))),
    {
        Self { res: Ok((v, Some(e))) }
    }

    /// Failure with a message.
    pub fn err(e: String) -> (r: Self)
        ensures
            r.spec_res() == Err::<(Option<Vec<Vec<String>>>, Option<String>), String>(e),
    {
        Self { res: Err(e) }
    }

    pub fn is_ok(&self) -> (r: bool)
        ensures
            r == self.spec_res() is Ok,
    {
        self.res.is_ok()
    }

    pub fn is_err(&self) -> (r: bool)
        ensures
            r == self.spec_res() is Err,
    {
        self.res.is_err()
    }

    /// The outcome, for printing.
    pub fn res(&self) -> (r: &Result<(Option<Vec<Vec<String>>>, Option<String>), String>)
        ensures
            *r == self.spec_res(),
    {
        &self.res
    }
}

/// Prints outcomes.
pub struct RuaLogger {}

impl RuaLogger {
    pub fn new() -> (r: Self) {
        Self {}
    }
}

} // verus!
