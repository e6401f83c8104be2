//! The kinds of failure the store reports, and the error value that carries
//! one of them together with an optional message and an optional cause.

use vstd::prelude::*;
use vstd::string::*;

verus! {

/// The kind of a failure.
#[derive(Debug, Clone, Copy, PartialEq, Eq, Structural)]
pub enum Status {
    NotFound,
    Corruption,
    NotSupported,
    InvalidArgument,
    CompressionError,
    IOError,
}

impl Status {
    /// The kind's name as it appears in a rendered error.
    pub open spec fn name(self) -> Seq<char> {
        match self {
            Status::NotFound => "NotFoundError"@,
            Status::Corruption => "CorruptionError"@,
            Status::NotSupported => "NotSupportedError"@,
            Status::InvalidArgument => "InvalidArgumentError"@,
            Status::CompressionError => "CompressionError"@,
            Status::IOError => "IOError"@,
        }
    }

    pub fn as_str(&self) -> (s: &'static str)
        ensures
            s@ == self.name(),
    {
        match *self {
            Status::NotFound => "NotFoundError",
            Status::Corruption => "CorruptionError",
            Status::NotSupported => "NotSupportedError",
            Status::InvalidArgument => "InvalidArgumentError",
            Status::CompressionError => "CompressionError",
            Status::IOError => "IOError",
        }
    }
}

/// An error of the store: its kind, an optional fixed message, and the
/// description of the underlying cause where there is one.
#[derive(Debug, Clone)]
pub struct WickErr {
    pub t: Status,
    pub msg: Option<&'static str>,
    pub raw: Option<String>,
}

/// What an error renders as: the kind in brackets, then the message and the
/// cause, each left out when absent.
pub open spec fn rendered(t: Status, msg: Option<Seq<char>>, raw: Option<Seq<char>>) -> Seq<char> {
    let head = "WickDB error ["@ + t.name() + "]"@;
    match (msg, raw) {
        (Some(m), Some(e)) => head + " : "@ + m + " , raw : "@ + e,
        (Some(m), None) => head + " : "@ + m,
        (None, Some(e)) => head + " , raw : "@ + e,
        (None, None) => head,
    }
}

/// The short description of an error: the message if there is one, else the
/// cause's description, else nothing.
pub open spec fn described(msg: Option<Seq<char>>, raw: Option<Seq<char>>) -> Seq<char> {
    match (msg, raw) {
        (Some(m), _) => m,
        (None, Some(e)) => e,
        (None, None) => Seq::empty(),
    }
}

impl WickErr {
    pub open spec fn msg_view(&self) -> Option<Seq<char>> {
        match self.msg {
            Some(m) => Some(m@),
            None => None,
        }
    }

    pub open spec fn raw_view(&self) -> Option<Seq<char>> {
        match self.raw {
            Some(e) => Some(e@),
            None => None,
        }
    }

    pub fn new(t: Status, msg: Option<&'static str>) -> (e: Self)
        ensures
            e.t == t,
            e.msg == msg,
            e.raw.is_none(),
    {
        Self { t, msg, raw: None }
    }

    /// An error that wraps an underlying cause, kept by its description.
    pub fn new_from_raw(t: Status, msg: Option<&'static str>, raw: String) -> (e: Self)
        ensures
            e.t == t,
            e.msg == msg,
            e.raw == Some(raw),
    {
        Self { t, msg, raw: Some(raw) }
    }

    pub fn status(&self) -> (t: Status)
        ensures
            t == self.t,
    {
        self.t
    }

    pub fn to_string(&self) -> (s: String)
        ensures
            s@ == rendered(self.t, self.msg_view(), self.raw_view()),
    {
        let mut s = String::from_str("WickDB error [");
        s.append(self.t.as_str());
        s.append("]");
        match self.msg {
            Some(m) => {
                s.append(" : ");
                s.append(m);
                match &self.raw {
                    Some(e) => {
                        s.append(" , raw : ");
                        s.append(e.as_str());
                    },
                    None => {},
                }
            },
            None => {
                match &self.raw {
                    Some(e) => {
                        s.append(" , raw : ");
                        s.append(e.as_str());
                    },
                    None => {},
                }
            },
        }
        s
    }

    pub fn description(&self) -> (s: &str)
        ensures
            s@ == described(self.msg_view(), self.raw_view()),
    {
        match self.msg {
            Some(m) => m,
            None => {
                match &self.raw {
                    Some(e) => e.as_str(),
                    None => {
                        proof {
                            reveal_strlit("");
                            assert(""@ =~= Seq::<char>::empty());
                        }
                        ""
                    },
                }
            },
        }
    }
}

} // verus!
