//! A Ctrl+C handler that does nothing: the engine owns the process
//! lifecycle, so installing a terminal handler always succeeds without effect.

use vstd::prelude::*;

verus! {

#[verifier::external_type_specification]
#[verifier::external_body]
pub struct ExIoError(std::io::Error);

/// Why a handler could not be installed.
#[derive(Debug)]
#[non_exhaustive]
pub enum Error {
    /// A handler was already installed.
    MultipleHandlers,
    /// An underlying system error.
    System(std::io::Error),
}

impl Error {
    /// The message of the error: `Ctrl-C handler already set`, or
    /// `system error: ` followed by the system error's display text.
    pub fn describe(&self) -> (text: String)
        ensures
            self is MultipleHandlers ==> text@ == "Ctrl-C handler already set"@,
            self matches Error::System(e) ==> exists|s: String|
                vstd::string::to_string_from_display_ensures::<std::io::Error>(&e, s) && text@
                    == "system error: "@ + s@,
    {
        match self {
            Error::MultipleHandlers => String::from_str("Ctrl-C handler already set"),
            Error::System(e) => {
                let prefix = String::from_str("system error: ");
                let message = e.to_string();
                prefix.concat(message.as_str())
            },
        }
    }
}

/// Installs a Ctrl+C handler; it is never called. Always succeeds.
pub fn set_handler<F>(_user_handler: F) -> (r: Result<(), Error>) where F: FnMut() + 'static + Send
    ensures
        r is Ok,
{
    Ok(())
}

/// Installs a Ctrl+C handler unless one is installed; it is never called.
/// Always succeeds.
pub fn try_set_handler<F>(_user_handler: F) -> (r: Result<(), Error>) where
    F: FnMut() + 'static + Send,
    ensures
        r is Ok,
{
    Ok(())
}

} // verus!
