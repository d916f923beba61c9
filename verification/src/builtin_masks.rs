//! Built-in masks for common high-cardinality tokens.
use vstd::prelude::*;

use crate::mask::{known_mask, regex_compiles, Mask, MaskView};
use crate::text::str_eq;

verus! {

/// RFC-4122 UUID.
pub const UUID_PATTERN: &'static str =
    r"\b[0-9a-fA-F]{8}-[0-9a-fA-F]{4}-[0-9a-fA-F]{4}-[0-9a-fA-F]{4}-[0-9a-fA-F]{12}\b";

/// 32-character hex string.
pub const HEX32_PATTERN: &'static str = r"\b[0-9a-fA-F]{32}\b";

/// Email address.
pub const EMAIL_PATTERN: &'static str = r"\b[A-Za-z0-9._%+-]+@[A-Za-z0-9.-]+\.[A-Za-z]{2,}\b";

/// IPv4 dotted-quad.
pub const IPV4_PATTERN: &'static str = r"\b(?:\d{1,3}\.){3}\d{1,3}\b";

/// JSON Web Token.
pub const JWT_PATTERN: &'static str = r"\beyJ[A-Za-z0-9_-]+\.[A-Za-z0-9_-]+\.[A-Za-z0-9_-]+\b";

/// RFC-4122 UUID -> `<uuid>`.
pub fn uuid() -> (m: Mask)
    requires
        regex_compiles(UUID_PATTERN@),
    ensures
        m@ == (MaskView { pattern: UUID_PATTERN@, placeholder: "<uuid>"@ }),
{
    known_mask(UUID_PATTERN, "<uuid>")
}

/// 32-character hex string -> `<hex32>`.
pub fn hex32() -> (m: Mask)
    requires
        regex_compiles(HEX32_PATTERN@),
    ensures
        m@ == (MaskView { pattern: HEX32_PATTERN@, placeholder: "<hex32>"@ }),
{
    known_mask(HEX32_PATTERN, "<hex32>")
}

/// Email address -> `<email>`.
pub fn email() -> (m: Mask)
    requires
        regex_compiles(EMAIL_PATTERN@),
    ensures
        m@ == (MaskView { pattern: EMAIL_PATTERN@, placeholder: "<email>"@ }),
{
    known_mask(EMAIL_PATTERN, "<email>")
}

/// IPv4 dotted-quad -> `<ipv4>`.
pub fn ipv4() -> (m: Mask)
    requires
        regex_compiles(IPV4_PATTERN@),
    ensures
        m@ == (MaskView { pattern: IPV4_PATTERN@, placeholder: "<ipv4>"@ }),
{
    known_mask(IPV4_PATTERN, "<ipv4>")
}

/// JSON Web Token -> `<jwt>`.
pub fn jwt() -> (m: Mask)
    requires
        regex_compiles(JWT_PATTERN@),
    ensures
        m@ == (MaskView { pattern: JWT_PATTERN@, placeholder: "<jwt>"@ }),
{
    known_mask(JWT_PATTERN, "<jwt>")
}

/// The pattern and placeholder of the built-in mask called `name`
/// (`uuid`, `hex32`, `email`, `ipv4`, `jwt`).
pub open spec fn builtin_spec(name: Seq<char>) -> Option<(Seq<char>, Seq<char>)> {
    if name == "uuid"@ {
        Some((UUID_PATTERN@, "<uuid>"@))
    } else if name == "hex32"@ {
        Some((HEX32_PATTERN@, "<hex32>"@))
    } else if name == "email"@ {
        Some((EMAIL_PATTERN@, "<email>"@))
    } else if name == "ipv4"@ {
        Some((IPV4_PATTERN@, "<ipv4>"@))
    } else if name == "jwt"@ {
        Some((JWT_PATTERN@, "<jwt>"@))
    } else {
        None
    }
}

/// The built-in mask called `name`, or `None` for an unknown name (or, which does not
/// happen with these patterns, one the regex engine refuses).
pub fn by_name(name: &str) -> (r: Option<Mask>)
    ensures
        match builtin_spec(name@) {
            Some((p, ph)) => if regex_compiles(p) {
                r matches Some(m) && m@ == (MaskView { pattern: p, placeholder: ph })
            } else {
                r is None
            },
            None => r is None,
        },
{
    if str_eq(name, "uuid") {
        match Mask::new(UUID_PATTERN, "<uuid>") {
            Ok(_) => Some(uuid()),
            Err(_) => None,
        }
    } else if str_eq(name, "hex32") {
        match Mask::new(HEX32_PATTERN, "<hex32>") {
            Ok(_) => Some(hex32()),
            Err(_) => None,
        }
    } else if str_eq(name, "email") {
        match Mask::new(EMAIL_PATTERN, "<email>") {
            Ok(_) => Some(email()),
            Err(_) => None,
        }
    } else if str_eq(name, "ipv4") {
        match Mask::new(IPV4_PATTERN, "<ipv4>") {
            Ok(_) => Some(ipv4()),
            Err(_) => None,
        }
    } else if str_eq(name, "jwt") {
        match Mask::new(JWT_PATTERN, "<jwt>") {
            Ok(_) => Some(jwt()),
            Err(_) => None,
        }
    } else {
        None
    }
}

} // verus!
