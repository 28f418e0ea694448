//! Severity levels and HTTP methods as a record can hold them.

use vstd::prelude::*;
use vstd::string::StringExecFns;
use crate::text::str_eq;

verus! {

/// Severity of a log line. The patterns recognise the wider vocabulary
/// DEBUG, INFO, WARNING, ERROR and FATAL, but only these three values are
/// representable in a record; the others yield no level.
#[derive(Debug, PartialEq, Eq, Structural, Clone, Copy)]
pub enum LogLevel {
    Info,
    Warning,
    Error,
}

/// Canonical name of a level, as it appears in log lines.
pub open spec fn level_name(l: LogLevel) -> Seq<char> {
    match l {
        LogLevel::Info => "INFO"@,
        LogLevel::Warning => "WARNING"@,
        LogLevel::Error => "ERROR"@,
    }
}

#[derive(Debug, PartialEq, Eq)]
pub struct LogLevelParseError(String);

impl LogLevel {
    pub fn as_str(&self) -> (r: &str)
        ensures
            r@ == level_name(*self),
    {
        match self {
            LogLevel::Info => "INFO",
            LogLevel::Warning => "WARNING",
            LogLevel::Error => "ERROR",
        }
    }

    /// Parses a canonical level name; any other text is rejected.
    pub fn from_str(s: &str) -> (r: Result<LogLevel, LogLevelParseError>)
        ensures
            r == Ok::<LogLevel, LogLevelParseError>(LogLevel::Info) <==> s@ == "INFO"@,
            r == Ok::<LogLevel, LogLevelParseError>(LogLevel::Warning) <==> s@ == "WARNING"@,
            r == Ok::<LogLevel, LogLevelParseError>(LogLevel::Error) <==> s@ == "ERROR"@,
            r is Err <==> s@ != "INFO"@ && s@ != "WARNING"@ && s@ != "ERROR"@,
    {
        proof {
            reveal_strlit("INFO");
            reveal_strlit("WARNING");
            reveal_strlit("ERROR");
            assert("INFO"@.len() == 4);
            assert("WARNING"@.len() == 7);
            assert("ERROR"@.len() == 5);
        }
        if str_eq(s, "INFO") {
            Ok(LogLevel::Info)
        } else if str_eq(s, "WARNING") {
            Ok(LogLevel::Warning)
        } else if str_eq(s, "ERROR") {
            Ok(LogLevel::Error)
        } else {
            Err(LogLevelParseError(String::from_str("invalid log level")))
        }
    }
}

/// HTTP method of a request line. HEAD and OPTIONS are recognised by the
/// patterns for boundary detection but are not representable here.
#[derive(Debug, PartialEq, Eq, Structural, Clone, Copy)]
pub enum LogMethod {
    Get,
    Post,
    Patch,
    Put,
    Delete,
}

/// Canonical name of a method, as it appears in log lines.
pub open spec fn method_name(m: LogMethod) -> Seq<char> {
    match m {
        LogMethod::Get => "GET"@,
        LogMethod::Post => "POST"@,
        LogMethod::Patch => "PATCH"@,
        LogMethod::Put => "PUT"@,
        LogMethod::Delete => "DELETE"@,
    }
}

#[derive(Debug, PartialEq, Eq)]
pub struct LogMethodParseError(String);

impl LogMethod {
    pub fn as_str(&self) -> (r: &str)
        ensures
            r@ == method_name(*self),
    {
        match self {
            LogMethod::Get => "GET",
            LogMethod::Post => "POST",
            LogMethod::Patch => "PATCH",
            LogMethod::Put => "PUT",
            LogMethod::Delete => "DELETE",
        }
    }

    /// Parses a canonical method name; any other text is rejected.
    pub fn from_str(s: &str) -> (r: Result<LogMethod, LogMethodParseError>)
        ensures
            r == Ok::<LogMethod, LogMethodParseError>(LogMethod::Get) <==> s@ == "GET"@,
            r == Ok::<LogMethod, LogMethodParseError>(LogMethod::Post) <==> s@ == "POST"@,
            r == Ok::<LogMethod, LogMethodParseError>(LogMethod::Patch) <==> s@ == "PATCH"@,
            r == Ok::<LogMethod, LogMethodParseError>(LogMethod::Put) <==> s@ == "PUT"@,
            r == Ok::<LogMethod, LogMethodParseError>(LogMethod::Delete) <==> s@ == "DELETE"@,
            r is Err <==> s@ != "GET"@ && s@ != "POST"@ && s@ != "PATCH"@ && s@ != "PUT"@ && s@
                != "DELETE"@,
    {
        proof {
            reveal_strlit("GET");
            reveal_strlit("POST");
            reveal_strlit("PATCH");
            reveal_strlit("PUT");
            reveal_strlit("DELETE");
            assert("GET"@.len() == 3);
            assert("POST"@.len() == 4);
            assert("PATCH"@.len() == 5);
            assert("PUT"@.len() == 3);
            assert("DELETE"@.len() == 6);
            assert("GET"@[0] == 'G');
            assert("PUT"@[0] == 'P');
        }
        if str_eq(s, "GET") {
            Ok(LogMethod::Get)
        } else if str_eq(s, "POST") {
            Ok(LogMethod::Post)
        } else if str_eq(s, "PATCH") {
            Ok(LogMethod::Patch)
        } else if str_eq(s, "PUT") {
            Ok(LogMethod::Put)
        } else if str_eq(s, "DELETE") {
            Ok(LogMethod::Delete)
        } else {
            Err(LogMethodParseError(String::from_str("invalid log method")))
        }
    }
}

} // verus!
