use vstd::prelude::*;

verus! {

/// At most this many parsed records form a file's preview head.
pub const MAX_HEAD_RECORDS: usize = 5;

#[verifier::external_type_specification]
#[verifier::external_body]
pub struct ExValue(serde_json::Value);

/// Whether `serde_json::from_str::<serde_json::Value>` accepts the string as
/// one JSON value; a function of the characters alone. A blank or
/// whitespace-only line is never accepted.
pub uninterp spec fn json_ok(s: Seq<char>) -> bool;

/// Relies on `serde_json::from_str::<serde_json::Value>`: it deserializes
/// any single JSON value, tolerating surrounding whitespace, and its outcome
/// depends on the characters alone.
#[verifier::external_body]
fn parse_json_line(line: &str) -> (r: Option<serde_json::Value>)
    ensures
        r is Some <==> json_ok(line@),
{
    serde_json::from_str::<serde_json::Value>(line).ok()
}

/// Builds the bounded preview head of a rollout file: the caller feeds lines
/// in file order until `wants_more` says the head is full; lines that do not
/// parse as JSON (blank lines included) are skipped without aborting.
pub struct HeadAccumulator {
    values: Vec<serde_json::Value>,
}

impl View for HeadAccumulator {
    type V = Seq<serde_json::Value>;

    closed spec fn view(&self) -> Seq<serde_json::Value> {
        self.values@
    }
}

impl HeadAccumulator {
    pub fn new() -> (r: Self)
        ensures
            r@.len() == 0,
    {
        HeadAccumulator { values: Vec::new() }
    }

    /// More lines are wanted until the head holds its full record count.
    pub fn wants_more(&self) -> (r: bool)
        ensures
            r == (self@.len() < MAX_HEAD_RECORDS),
    {
        self.values.len() < MAX_HEAD_RECORDS
    }

    /// Offer one line: it is kept exactly when it parses as JSON and the
    /// head still has room; the records already collected never change.
    pub fn push_line(&mut self, line: &str)
        ensures
            old(self)@.len() >= MAX_HEAD_RECORDS || !json_ok(line@) ==> final(self)@ == old(
                self,
            )@,
            old(self)@.len() < MAX_HEAD_RECORDS && json_ok(line@) ==> final(self)@.len() == old(
                self,
            )@.len() + 1 && final(self)@.drop_last() == old(self)@,
            final(self)@.len() <= MAX_HEAD_RECORDS || final(self)@ == old(self)@,
    {
        if self.values.len() >= MAX_HEAD_RECORDS {
            return ;
        }
        match parse_json_line(line) {
            Some(v) => {
                let ghost prev = self.values@;
                self.values.push(v);
                proof {
                    assert(self.values@.drop_last() =~= prev);
                }
            },
            None => {},
        }
    }

    /// The collected head records, in file order.
    pub fn finish(self) -> (r: Vec<serde_json::Value>)
        ensures
            r@ == self@,
    {
        self.values
    }
}

} // verus!
