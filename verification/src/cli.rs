//! What the command line says when a command fails.

use vstd::prelude::*;
use vstd::string::StringExecFns;

verus! {

/// An error of the service interface.
#[derive(Debug, Clone)]
pub enum ApiError {
    /// The named service refused the connection.
    ConnectionRefused { service: String },
    Other(String),
}

/// An error of a command.
#[derive(Debug, Clone)]
pub enum CliError {
    /// An input or output error; `connection_refused` says whether it was
    /// a refused connection.
    Io { connection_refused: bool, message: String },
    Api(ApiError),
    Other(String),
}

/// What is shown for a failed command.
#[derive(Debug, Clone)]
pub enum Report {
    /// A message with a hint on what to do; the hint is shown in yellow.
    Hinted { message: String, hint: String },
    /// The error as it is.
    Plain(CliError),
}

/// The message for a refused connection to the service `service`.
pub open spec fn refused_message(service: Seq<char>) -> Seq<char> {
    "Connection refused. This command requires a running "@ + service + " service."@
}

/// The hint for a refused connection to the service `service`.
pub open spec fn refused_hint(service: Seq<char>) -> Seq<char> {
    "hint: try 'iroh start "@ + service + "'"@
}

/// Turns the outcome of a command into what is shown. A refused
/// connection gets a message with a hint on starting services; every other
/// error is shown as it is.
pub fn transform_error(r: Result<(), CliError>) -> (out: Result<(), Report>)
    ensures
        match r {
            Ok(_) => out is Ok,
            Err(CliError::Io { connection_refused: true, message }) => out matches Err(
                Report::Hinted { message: m, hint: h },
            ) && m@ == "Connection refused. Are services running?"@ && h@
                == "hint: see 'iroh start' for more on starting services"@,
            Err(CliError::Api(ApiError::ConnectionRefused { service })) => out matches Err(
                Report::Hinted { message: m, hint: h },
            ) && m@ == refused_message(service@) && h@ == refused_hint(service@),
            Err(other) => out matches Err(Report::Plain(e)) && e == other,
        },
{
    match r {
        Ok(_) => Ok(()),
        Err(e) => match e {
            CliError::Io { connection_refused, message } => {
                if connection_refused {
                    Err(
                        Report::Hinted {
                            message: String::from_str("Connection refused. Are services running?"),
                            hint: String::from_str(
                                "hint: see 'iroh start' for more on starting services",
                            ),
                        },
                    )
                } else {
                    Err(Report::Plain(CliError::Io { connection_refused, message }))
                }
            },
            CliError::Api(api_error) => match api_error {
                ApiError::ConnectionRefused { service } => {
                    let mut message = String::from_str(
                        "Connection refused. This command requires a running ",
                    );
                    message.append(service.as_str());
                    message.append(" service.");
                    let mut hint = String::from_str("hint: try 'iroh start ");
                    hint.append(service.as_str());
                    hint.append("'");
                    Err(Report::Hinted { message, hint })
                },
                other => Err(Report::Plain(CliError::Api(other))),
            },
            other => Err(Report::Plain(other)),
        },
    }
}

} // verus!
