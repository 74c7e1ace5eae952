//! Addressing of configuration mutations: a request names one mutable field
//! by a three-level dotted path (`category.section.field`, matched after
//! ASCII case folding) and supplies its new value. Exactly four fields are
//! addressable; the listening port is explicitly refused, and every unknown
//! address is a rejection, never a crash.

use vstd::prelude::*;
use vstd::string::StrSliceExecFns;
use crate::general_config::TracingLevel;
use crate::paths::split_seq;

verus! {

/// ASCII lower-casing of one character; every other character is kept.
pub open spec fn spec_lower_char(c: char) -> char {
    if c == 'A' {
        'a'
    } else if c == 'B' {
        'b'
    } else if c == 'C' {
        'c'
    } else if c == 'D' {
        'd'
    } else if c == 'E' {
        'e'
    } else if c == 'F' {
        'f'
    } else if c == 'G' {
        'g'
    } else if c == 'H' {
        'h'
    } else if c == 'I' {
        'i'
    } else if c == 'J' {
        'j'
    } else if c == 'K' {
        'k'
    } else if c == 'L' {
        'l'
    } else if c == 'M' {
        'm'
    } else if c == 'N' {
        'n'
    } else if c == 'O' {
        'o'
    } else if c == 'P' {
        'p'
    } else if c == 'Q' {
        'q'
    } else if c == 'R' {
        'r'
    } else if c == 'S' {
        's'
    } else if c == 'T' {
        't'
    } else if c == 'U' {
        'u'
    } else if c == 'V' {
        'v'
    } else if c == 'W' {
        'w'
    } else if c == 'X' {
        'x'
    } else if c == 'Y' {
        'y'
    } else if c == 'Z' {
        'z'
    } else {
        c
    }
}

/// ASCII lower-casing of a whole text.
pub open spec fn lower_seq(s: Seq<char>) -> Seq<char> {
    s.map_values(|c: char| spec_lower_char(c))
}

fn lower_char(c: char) -> (r: char)
    ensures
        r == spec_lower_char(c),
{
    if c == 'A' {
        'a'
    } else if c == 'B' {
        'b'
    } else if c == 'C' {
        'c'
    } else if c == 'D' {
        'd'
    } else if c == 'E' {
        'e'
    } else if c == 'F' {
        'f'
    } else if c == 'G' {
        'g'
    } else if c == 'H' {
        'h'
    } else if c == 'I' {
        'i'
    } else if c == 'J' {
        'j'
    } else if c == 'K' {
        'k'
    } else if c == 'L' {
        'l'
    } else if c == 'M' {
        'm'
    } else if c == 'N' {
        'n'
    } else if c == 'O' {
        'o'
    } else if c == 'P' {
        'p'
    } else if c == 'Q' {
        'q'
    } else if c == 'R' {
        'r'
    } else if c == 'S' {
        's'
    } else if c == 'T' {
        't'
    } else if c == 'U' {
        'u'
    } else if c == 'V' {
        'v'
    } else if c == 'W' {
        'w'
    } else if c == 'X' {
        'x'
    } else if c == 'Y' {
        'y'
    } else if c == 'Z' {
        'z'
    } else {
        c
    }
}

/// Whether `s`, case-folded, equals the (already lower-case) name `lit`.
pub fn seg_matches(s: &str, lit: &str) -> (r: bool)
    ensures
        r == (lower_seq(s@) == lit@),
{
    let n = s.unicode_len();
    let m = lit.unicode_len();
    if n != m {
        proof {
            assert(lower_seq(s@).len() == s@.len());
        }
        return false;
    }
    let mut i: usize = 0;
    while i < n
        invariant
            n == s@.len(),
            n == lit@.len(),
            0 <= i <= n,
            forall|j: int| 0 <= j < i ==> spec_lower_char(s@[j]) == lit@[j],
        decreases n - i,
    {
        if lower_char(s.get_char(i)) != lit.get_char(i) {
            proof {
                assert(lower_seq(s@)[i as int] == spec_lower_char(s@[i as int]));
            }
            return false;
        }
        i = i + 1;
    }
    proof {
        assert(lower_seq(s@) =~= lit@);
    }
    true
}

/// Everything that makes a mutation request fail before it touches state.
#[derive(PartialEq, Eq, Structural, Clone, Copy, Debug)]
pub enum ChangeError {
    /// The dotted path has no second segment.
    NoSection,
    /// The dotted path has no third segment.
    NoField,
    /// The listening port cannot be changed while the process runs.
    PortImmutable,
    /// The value is not one of the five logging level names.
    InvalidLogLevel,
    /// The dotted path names no addressable field.
    UnknownField,
}

impl ChangeError {
    /// The reason string the handler reports for this rejection.
    pub fn message(&self) -> (r: &'static str)
        ensures
            r@ == match *self {
                ChangeError::NoSection => "No part provided"@,
                ChangeError::NoField => "No param provided"@,
                ChangeError::PortImmutable => "Cannot change port via api"@,
                ChangeError::InvalidLogLevel => "Invalid log level provided (Trace, Debug, Info, Warn, Error)"@,
                ChangeError::UnknownField => "Unknown config"@,
            },
    {
        match self {
            ChangeError::NoSection => "No part provided",
            ChangeError::NoField => "No param provided",
            ChangeError::PortImmutable => "Cannot change port via api",
            ChangeError::InvalidLogLevel => "Invalid log level provided (Trace, Debug, Info, Warn, Error)",
            ChangeError::UnknownField => "Unknown config",
        }
    }
}

/// The four addressable fields a mutation request can resolve to.
#[derive(PartialEq, Eq, Structural, Clone, Copy, Debug)]
pub enum ChangeTarget {
    /// `admin.credentials.password`
    Password,
    /// `general.theme.icon_path`
    IconPath,
    /// `general.theme.company_name`
    CompanyName,
    /// `general.logging.max_level`, carrying the parsed level.
    MaxLevel(TracingLevel),
}

/// What a dotted path and value resolve to: the addressed field, or the
/// rejection. The first three `.`-separated segments address the field,
/// case-insensitively; a path with fewer than three segments is rejected.
pub open spec fn change_decision(path: Seq<char>, value: Seq<char>) -> Result<
    ChangeTarget,
    ChangeError,
> {
    let segs = split_seq(path, '.');
    if segs.len() < 2 {
        Err(ChangeError::NoSection)
    } else if segs.len() < 3 {
        Err(ChangeError::NoField)
    } else {
        let c = lower_seq(segs[0]);
        let s = lower_seq(segs[1]);
        let f = lower_seq(segs[2]);
        if c == "admin"@ && s == "credentials"@ && f == "password"@ {
            Ok(ChangeTarget::Password)
        } else if c == "general"@ && s == "server"@ && f == "port"@ {
            Err(ChangeError::PortImmutable)
        } else if c == "general"@ && s == "theme"@ && f == "icon_path"@ {
            Ok(ChangeTarget::IconPath)
        } else if c == "general"@ && s == "theme"@ && f == "company_name"@ {
            Ok(ChangeTarget::CompanyName)
        } else if c == "general"@ && s == "logging"@ && f == "max_level"@ {
            match TracingLevel::of_str(value) {
                Some(l) => Ok(ChangeTarget::MaxLevel(l)),
                None => Err(ChangeError::InvalidLogLevel),
            }
        } else {
            Err(ChangeError::UnknownField)
        }
    }
}

/// The query parameter of an admin-hash check request.
pub struct AdminCheckParams {
    pub admin_hash: String,
}

/// The body of a configuration mutation request.
pub struct ChangeConfigPayload {
    pub path: String,
    pub value: String,
}

} // verus!
