//! Resolves an annotated `.env`-style specification into key/value pairs.
//!
//! The library parses declaration text into ordered entries, expands
//! `$name` placeholders inside secret identifiers, plans deduplicated and
//! batched secret fetches, merges fetched values back onto the entries,
//! and renders the resolved mapping.

pub mod chars;
pub mod error;
pub mod expand;
pub mod formatters;
pub mod omap;
pub mod parser;
pub mod resolve;
pub mod roundtrip;

pub use error::Error;
pub use expand::replace_placeholders;
pub use formatters::EnvFormatter;
pub use formatters::Formatter;
pub use formatters::JsonFormatter;
pub use formatters::OutputEntry;
pub use formatters::ShellFormatter;
pub use parser::parse;
pub use parser::EnvEntries;
pub use parser::EnvEntry;
pub use parser::SecretConfig;
pub use parser::SecretProviderConfig;

use vstd::prelude::*;

use crate::chars::chars_to_string;
use crate::chars::subvec;

verus! {

/// The position of the first `=` at or after `i`, or the length of `s`.
pub open spec fn eq_pos(s: Seq<char>, i: int) -> int
    decreases s.len() - i,
{
    if i < 0 || i >= s.len() {
        s.len() as int
    } else if s[i] == '=' {
        i
    } else {
        eq_pos(s, i + 1)
    }
}

/// What splitting `key=value` yields: the text before the first `=` and
/// the text between the first and the second; absent any `=`, nothing.
pub open spec fn spec_key_val(s: Seq<char>) -> Option<(Seq<char>, Seq<char>)> {
    let e1 = eq_pos(s, 0);
    if e1 >= s.len() {
        None
    } else {
        Some((s.subrange(0, e1), s.subrange(e1 + 1, eq_pos(s, e1 + 1))))
    }
}

/// Executable form of [`eq_pos`].
fn scan_eq(v: &Vec<char>, start: usize) -> (r: usize)
    requires
        start <= v@.len(),
    ensures
        r == eq_pos(v@, start as int),
        start <= r <= v@.len(),
{
    let mut i = start;
    loop
        invariant
            start <= i <= v@.len(),
            eq_pos(v@, start as int) == eq_pos(v@, i as int),
        decreases v@.len() - i,
    {
        if i >= v.len() {
            return i;
        }
        if v[i] == '=' {
            return i;
        }
        i += 1;
    }
}

/// Splits one `key=value` argument: the key is the text before the first
/// `=`, the value the text between the first and the second. An argument
/// with no `=` is rejected with a usage message.
pub fn parse_key_val(s: &str) -> (r: Result<(String, String), String>)
    ensures
        match r {
            Ok(p) => spec_key_val(s@) == Some((p.0@, p.1@)),
            Err(m) => {
                &&& spec_key_val(s@) == None::<(Seq<char>, Seq<char>)>
                &&& m@ == "Key value pairs should be of the form key=value"@
            },
        },
{
    let cs = crate::chars::str_to_chars(s);
    let e1 = scan_eq(&cs, 0);
    if e1 >= cs.len() {
        return Err(String::from_str("Key value pairs should be of the form key=value"));
    }
    let e2 = scan_eq(&cs, e1 + 1);
    let key = chars_to_string(&subvec(&cs, 0, e1));
    let value = chars_to_string(&subvec(&cs, e1 + 1, e2));
    Ok((key, value))
}

} // verus!
