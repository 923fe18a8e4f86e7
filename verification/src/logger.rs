//! The logging options a configuration names, read case-insensitively.
use vstd::prelude::*;

use crate::sync_core::bytes_equal;
use vstd::string::StringSliceAdditionalSpecFns;

verus! {

/// What `str::to_lowercase` gives for a string: the Unicode lowercase
/// mapping of each character, which depends on the string alone.
pub uninterp spec fn lowercase(s: Seq<char>) -> Seq<char>;

/// Whether every character is ASCII.
pub open spec fn ascii_only(s: Seq<char>) -> bool {
    forall|i: int| 0 <= i < s.len() ==> (#[trigger] s[i] as u32) < 128
}

/// An ASCII character in lowercase: `A` to `Z` become `a` to `z`, the
/// rest stay.
pub open spec fn ascii_lower_char(c: char) -> char {
    if 65 <= (c as u32) <= 90 {
        ((c as u32) + 32) as char
    } else {
        c
    }
}

/// Every character in ASCII lowercase.
pub open spec fn ascii_lower(s: Seq<char>) -> Seq<char> {
    s.map_values(|c: char| ascii_lower_char(c))
}

/// `str::to_lowercase`: its result is the Unicode lowercase form of `s`,
/// named `lowercase` above. Of an all-ASCII string, as the documentation
/// of the ASCII mapping shows, only `A` to `Z` change, to `a` to `z`.
#[verifier::external_body]
fn to_lowercase(s: &str) -> (r: String)
    ensures
        r@ == lowercase(s@),
        ascii_only(s@) ==> r@ == ascii_lower(s@),
{
    s.to_lowercase()
}

/// Whether two strings hold the same characters.
pub fn str_equal(a: &str, b: &str) -> (r: bool)
    ensures
        r == (a@ == b@),
{
    broadcast use vstd::utf8::encode_utf8_decode_utf8;

    let eq = bytes_equal(a.as_bytes(), b.as_bytes());
    proof {
        if a.spec_bytes() == b.spec_bytes() {
            assert(vstd::utf8::decode_utf8(vstd::utf8::encode_utf8(a@)) == a@);
            assert(vstd::utf8::decode_utf8(vstd::utf8::encode_utf8(b@)) == b@);
        }
    }
    eq
}

/// Log format options
#[derive(Debug, Clone, Copy, PartialEq, Eq, Structural)]
pub enum LogFormat {
    Compact,
    Pretty,
    Json,
}

/// The format a lowercase name selects; any other name selects `Compact`.
pub open spec fn format_named(lower: Seq<char>) -> LogFormat {
    if lower == "pretty"@ {
        LogFormat::Pretty
    } else if lower == "json"@ {
        LogFormat::Json
    } else {
        LogFormat::Compact
    }
}

impl LogFormat {
    /// The format a lowercase name selects.
    pub fn from_lowercase(lower: &str) -> (f: Self)
        ensures
            f == format_named(lower@),
    {
        if str_equal(lower, "pretty") {
            LogFormat::Pretty
        } else if str_equal(lower, "json") {
            LogFormat::Json
        } else {
            LogFormat::Compact
        }
    }

    /// The format a name selects, whatever its case.
    pub fn from_str(s: &str) -> (f: Self)
        ensures
            f == format_named(lowercase(s@)),
            ascii_only(s@) ==> f == format_named(ascii_lower(s@)),
    {
        let lower = to_lowercase(s);
        Self::from_lowercase(lower.as_str())
    }
}

/// Log level options
#[derive(Debug, Clone, Copy, PartialEq, Eq, Structural)]
pub enum LogLevel {
    Trace,
    Debug,
    Info,
    Warn,
    Error,
}

/// The level a lowercase name selects; any other name selects `Info`.
pub open spec fn level_named(lower: Seq<char>) -> LogLevel {
    if lower == "trace"@ {
        LogLevel::Trace
    } else if lower == "debug"@ {
        LogLevel::Debug
    } else if lower == "warn"@ {
        LogLevel::Warn
    } else if lower == "error"@ {
        LogLevel::Error
    } else {
        LogLevel::Info
    }
}

/// The name of a level.
pub open spec fn level_name(level: LogLevel) -> Seq<char> {
    match level {
        LogLevel::Trace => "trace"@,
        LogLevel::Debug => "debug"@,
        LogLevel::Info => "info"@,
        LogLevel::Warn => "warn"@,
        LogLevel::Error => "error"@,
    }
}

impl LogLevel {
    pub fn as_str(&self) -> (s: &'static str)
        ensures
            s@ == level_name(*self),
    {
        match self {
            LogLevel::Trace => "trace",
            LogLevel::Debug => "debug",
            LogLevel::Info => "info",
            LogLevel::Warn => "warn",
            LogLevel::Error => "error",
        }
    }

    /// The level a lowercase name selects.
    pub fn from_lowercase(lower: &str) -> (l: Self)
        ensures
            l == level_named(lower@),
    {
        if str_equal(lower, "trace") {
            LogLevel::Trace
        } else if str_equal(lower, "debug") {
            LogLevel::Debug
        } else if str_equal(lower, "warn") {
            LogLevel::Warn
        } else if str_equal(lower, "error") {
            LogLevel::Error
        } else {
            LogLevel::Info
        }
    }

    /// The level a name selects, whatever its case.
    pub fn from_str(s: &str) -> (l: Self)
        ensures
            l == level_named(lowercase(s@)),
            ascii_only(s@) ==> l == level_named(ascii_lower(s@)),
    {
        let lower = to_lowercase(s);
        Self::from_lowercase(lower.as_str())
    }
}

/// A level's name selects the level again.
pub proof fn lemma_level_name_round_trip(level: LogLevel)
    ensures
        level_named(level_name(level)) == level,
{
    reveal_strlit("trace");
    reveal_strlit("debug");
    reveal_strlit("info");
    reveal_strlit("warn");
    reveal_strlit("error");
    match level {
        LogLevel::Trace => {},
        LogLevel::Debug => {
            assert("debug"@[0] != "trace"@[0]);
        },
        LogLevel::Info => {
            assert("info"@.len() != "trace"@.len());
            assert("info"@.len() != "debug"@.len());
            assert("info"@[0] != "warn"@[0]);
            assert("info"@.len() != "error"@.len());
        },
        LogLevel::Warn => {
            assert("warn"@.len() != "trace"@.len());
            assert("warn"@.len() != "debug"@.len());
        },
        LogLevel::Error => {
            assert("error"@[0] != "trace"@[0]);
            assert("error"@[0] != "debug"@[0]);
            assert("error"@.len() != "warn"@.len());
        },
    }
}

} // verus!
