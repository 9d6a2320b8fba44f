use vstd::prelude::*;
use vstd::string::StringExecFns;
use crate::document::{contains_key, holds_key};

verus! {

/// The tool's subcommands.
#[derive(Clone, Debug, PartialEq, Eq)]
pub enum Commands {
    /// Add a translation to all locale files.
    Add { key: Option<String> },
    /// Update a translation in all locale files.
    Update { key: Option<String> },
    /// Check that every locale file holds the keys of the default one.
    Validate { fail_on_empty: Option<bool> },
}

/// Why a subcommand failed.
#[derive(Debug, PartialEq, Eq)]
pub enum CommandError {
    Generic(String),
}

impl CommandError {
    /// The text that reports this failure.
    pub fn message(&self) -> (r: String)
        ensures
            r@ == self->Generic_0@,
    {
        match self {
            CommandError::Generic(msg) => msg.clone(),
        }
    }
}

/// The report that `key` names a group and so cannot take a translation.
pub open spec fn nested_key_message(key: Seq<char>) -> Seq<char> {
    "'"@ + key + "' has nested keys. Could not add as this key."@
}

/// Whether `key` may be added, given the keys `group_keys` of the groups of
/// the default locale file: it must not name one of them.
pub fn check_new_key(group_keys: &Vec<String>, key: &String) -> (r: Result<(), CommandError>)
    ensures
        r is Err <==> holds_key(group_keys@, key@),
        r is Err ==> r->Err_0->Generic_0@ == nested_key_message(key@),
{
    if contains_key(group_keys, key) {
        Err(
            CommandError::Generic(
                String::from_str("'").concat(key.as_str()).concat("' has nested keys. Could not add as this key."),
            ),
        )
    } else {
        Ok(())
    }
}

/// The decimal digit `d`.
pub open spec fn digit_text(d: nat) -> Seq<char> {
    if d == 0 { "0"@ } else if d == 1 { "1"@ } else if d == 2 { "2"@ } else if d == 3 { "3"@ }
    else if d == 4 { "4"@ } else if d == 5 { "5"@ } else if d == 6 { "6"@ } else if d == 7 { "7"@ }
    else if d == 8 { "8"@ } else { "9"@ }
}

/// `n` written in decimal, without leading zeros.
pub open spec fn decimal(n: nat) -> Seq<char>
    decreases n,
{
    if n < 10 {
        digit_text(n)
    } else {
        decimal(n / 10) + digit_text(n % 10)
    }
}

/// The decimal digit `d`, which is below ten.
fn digit_string(d: usize) -> (r: String)
    requires
        d < 10,
    ensures
        r@ == digit_text(d as nat),
{
    let t = if d == 0 { "0" } else if d == 1 { "1" } else if d == 2 { "2" } else if d == 3 { "3" }
        else if d == 4 { "4" } else if d == 5 { "5" } else if d == 6 { "6" } else if d == 7 { "7" }
        else if d == 8 { "8" } else { "9" };
    String::from_str(t)
}

/// `n` written in decimal.
pub fn decimal_string(n: usize) -> (r: String)
    ensures
        r@ == decimal(n as nat),
    decreases n,
{
    if n < 10 {
        digit_string(n)
    } else {
        let head = decimal_string(n / 10);
        let last = digit_string(n % 10);
        head.concat(last.as_str())
    }
}

/// The report that validation found `n` issues.
pub open spec fn issues_found_message(n: nat) -> Seq<char> {
    decimal(n) + " issues found."@
}

/// The outcome of a validation that found `issues`: success when there is
/// none, else a failure that reports how many there are.
pub fn validation_result(issues: &Vec<String>) -> (r: Result<(), CommandError>)
    ensures
        issues@.len() == 0 <==> r is Ok,
        r is Err ==> r->Err_0->Generic_0@ == issues_found_message(issues@.len()),
{
    if issues.len() == 0 {
        Ok(())
    } else {
        Err(CommandError::Generic(decimal_string(issues.len()).concat(" issues found.")))
    }
}

} // verus!
