//! The service locator that scripts know as `game`, and the one service it
//! locates.

use vstd::prelude::*;

verus! {

/// Whether two texts are the same, character by character.
pub fn same_text(a: &str, b: &str) -> (same: bool)
    ensures
        same == (a@ == b@),
{
    a.to_owned() == b.to_owned()
}

/// The service locator.
#[derive(Debug, Clone, Copy, PartialEq, Eq, Structural)]
pub struct Game;

/// The service that ends the host process with a status code.
#[derive(Debug, Clone, Copy, PartialEq, Eq, Structural)]
pub struct ProcessService;

/// Why the locator found nothing: no service has the name asked for.
#[derive(Debug, Clone, PartialEq, Eq)]
pub struct UnknownService {
    pub name: String,
}

impl UnknownService {
    /// The text of the failure.
    pub open spec fn message_spec(&self) -> Seq<char> {
        "'"@ + self.name@ + "' is not a valid Service name"@
    }

    /// The text of the failure, as a script sees it.
    pub fn message(&self) -> (text: String)
        ensures
            text@ == self.message_spec(),
    {
        let mut text = "'".to_owned();
        text.append(self.name.as_str());
        text.append("' is not a valid Service name");
        text
    }
}

impl Game {
    /// The service called `service_name`. Only `ProcessService` exists; any
    /// other name fails, and the failure carries the name.
    pub fn get_service(&self, service_name: &str) -> (outcome: Result<ProcessService, UnknownService>)
        ensures
            service_name@ == "ProcessService"@ ==> outcome is Ok,
            service_name@ != "ProcessService"@ ==> (outcome matches Err(failure) && failure.name@
                == service_name@),
    {
        if same_text(service_name, "ProcessService") {
            Ok(ProcessService)
        } else {
            Err(UnknownService { name: service_name.to_owned() })
        }
    }
}

impl ProcessService {
    /// The status the host process is to end with: the one given, and 0
    /// where none is given.
    pub fn exit_status(&self, status_code: Option<i32>) -> (status: i32)
        ensures
            status == match status_code {
                Some(code) => code,
                None => 0,
            },
    {
        match status_code {
            Some(code) => code,
            None => 0,
        }
    }
}

} // verus!
