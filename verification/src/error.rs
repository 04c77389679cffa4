//! The parse-failure error type shared by every address family.

use vstd::prelude::*;

verus! {

/// Error type of the address library.
///
/// Every grammar violation, numeric overflow, missing separator and resolver
/// failure surfaces as `Parse`, carrying the offending value, the source and
/// target representations, and optionally the lower-level error it wraps. The
/// chain of wrapped errors can be walked through `source`.
#[derive(Debug)]
pub enum AdbError {
    /// Failed to parse a value.
    Parse {
        value: String,
        source_type: String,
        target_type: String,
        source: Option<Box<AdbError>>,
    },
}

impl AdbError {
    /// The error is a `Parse` failure with exactly these fields and no wrapped
    /// lower-level error.
    pub open spec fn is_parse(
        &self,
        value: Seq<char>,
        source_type: Seq<char>,
        target_type: Seq<char>,
    ) -> bool {
        match self {
            AdbError::Parse { value: v, source_type: s, target_type: t, source } => v@ == value
                && s@ == source_type && t@ == target_type && source is None,
        }
    }

    /// The message text of the error: the failing input, the source and target
    /// representations, then the message of any wrapped error.
    pub open spec fn spec_message(&self) -> Seq<char>
        decreases self,
    {
        match self {
            AdbError::Parse { value, source_type, target_type, source } => {
                "failed when parsing `"@ + value@ + "` from `"@ + source_type@ + "` into `"@
                    + target_type@ + "`"@ + match source {
                    Some(e) => ": "@ + e.spec_message(),
                    None => Seq::<char>::empty(),
                }
            },
        }
    }

    /// Builds a `Parse` error from the offending text and the two type names.
    pub fn parse_failure(value: String, source_type: &str, target_type: &str) -> (r: AdbError)
        ensures
            r.is_parse(value@, source_type@, target_type@),
    {
        AdbError::Parse {
            value,
            source_type: source_type.to_owned(),
            target_type: target_type.to_owned(),
            source: None,
        }
    }

    /// The lower-level error this one wraps, if any.
    pub fn source(&self) -> (r: Option<&AdbError>)
        ensures
            match self {
                AdbError::Parse { source, .. } => match r {
                    Some(e) => source is Some && *e == source->0,
                    None => source is None,
                },
            },
    {
        match self {
            AdbError::Parse { source, .. } => match source {
                Some(e) => Some(&**e),
                None => None,
            },
        }
    }

    /// Renders the message of the error, wrapped causes appended after `: `.
    pub fn message(&self) -> (r: String)
        ensures
            r@ == self.spec_message(),
        decreases self,
    {
        match self {
            AdbError::Parse { value, source_type, target_type, source } => {
                let mut r = String::new();
                r.append("failed when parsing `");
                r.append(value.as_str());
                r.append("` from `");
                r.append(source_type.as_str());
                r.append("` into `");
                r.append(target_type.as_str());
                r.append("`");
                match source {
                    Some(e) => {
                        r.append(": ");
                        let tail = e.message();
                        r.append(tail.as_str());
                    },
                    None => {},
                }
                proof {
                    assert(r@ =~= self.spec_message());
                }
                r
            },
        }
    }
}

} // verus!
