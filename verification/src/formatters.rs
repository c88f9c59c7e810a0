//! Renders a resolved ordered mapping as `.env` lines, shell exports, or
//! one JSON object.

use vstd::prelude::*;
use vstd::string::StringExecFns;

verus! {

/// The lowercase hexadecimal digit character for `d`.
pub open spec fn hex_digit_char(d: int) -> char {
    if d == 0 {
        '0'
    } else if d == 1 {
        '1'
    } else if d == 2 {
        '2'
    } else if d == 3 {
        '3'
    } else if d == 4 {
        '4'
    } else if d == 5 {
        '5'
    } else if d == 6 {
        '6'
    } else if d == 7 {
        '7'
    } else if d == 8 {
        '8'
    } else if d == 9 {
        '9'
    } else if d == 10 {
        'a'
    } else if d == 11 {
        'b'
    } else if d == 12 {
        'c'
    } else if d == 13 {
        'd'
    } else if d == 14 {
        'e'
    } else {
        'f'
    }
}

/// How one character is escaped inside a JSON string: `"` and `\` get a
/// backslash, the control characters with short forms get those, any
/// other character below 0x20 gets a `\u00xy` escape, and everything else
/// stands as itself.
pub open spec fn json_escape_char(c: char) -> Seq<char> {
    if c == '"' {
        seq!['\\', '"']
    } else if c == '\\' {
        seq!['\\', '\\']
    } else if c == '\u{08}' {
        seq!['\\', 'b']
    } else if c == '\t' {
        seq!['\\', 't']
    } else if c == '\n' {
        seq!['\\', 'n']
    } else if c == '\u{0C}' {
        seq!['\\', 'f']
    } else if c == '\r' {
        seq!['\\', 'r']
    } else if (c as u32) < 0x20 {
        seq![
            '\\',
            'u',
            '0',
            '0',
            hex_digit_char(((c as u32) >> 4u32) as int),
            hex_digit_char(((c as u32) & 0xFu32) as int),
        ]
    } else {
        seq![c]
    }
}

/// The JSON escaping of `s` from `i` on.
pub open spec fn json_escaped_from(s: Seq<char>, i: int) -> Seq<char>
    decreases s.len() - i,
{
    if i < 0 || i >= s.len() {
        Seq::empty()
    } else {
        json_escape_char(s[i]) + json_escaped_from(s, i + 1)
    }
}

/// The JSON string literal for `s`: its escaping wrapped in double quotes.
pub open spec fn json_quoted(s: Seq<char>) -> Seq<char> {
    seq!['"'] + json_escaped_from(s, 0) + seq!['"']
}

/// Relies on `serde_json::to_string` on a string slice: the result is the
/// input JSON-string-escaped (per serde_json's escape table: `"`, `\`,
/// and the control characters below 0x20) wrapped in double quotes.
/// Serializing a string slice cannot fail.
#[verifier::external_body]
fn json_quote(s: &str) -> (r: String)
    ensures
        r@ == json_quoted(s@),
{
    serde_json::to_string(s).expect("a string slice serializes")
}

/// A key/value pair to render.
pub struct OutputEntry<'a>(pub &'a str, pub &'a str);

/// The key/value views of the pairs to render.
pub open spec fn entry_pairs<'a>(entries: Seq<OutputEntry<'a>>) -> Seq<(Seq<char>, Seq<char>)> {
    entries.map_values(|e: OutputEntry<'a>| (e.0@, e.1@))
}

/// By implementing `Formatter` a type provides a way to format
/// [`OutputEntry`]s.
pub trait Formatter {
    /// What the rendering of `pairs` is.
    spec fn spec_format(&self, pairs: Seq<(Seq<char>, Seq<char>)>) -> Seq<char>;

    /// Renders the entries.
    fn format<'a>(&self, entries: &Vec<OutputEntry<'a>>) -> (r: String)
        ensures
            r@ == self.spec_format(entry_pairs(entries@)),
    ;
}

// ---------------------------------------------------------------------------
// `.env` lines and shell exports.
// ---------------------------------------------------------------------------

/// The characters of `export `.
pub open spec fn export_prefix() -> Seq<char> {
    seq!['e', 'x', 'p', 'o', 'r', 't', ' ']
}

/// One rendered line: an optional `export ` prefix, the key, `=`, the
/// JSON-quoted value, and a newline.
pub open spec fn rendered_line(prefix: Seq<char>, key: Seq<char>, value: Seq<char>) -> Seq<char> {
    prefix + key + seq!['='] + json_quoted(value) + seq!['\n']
}

/// The rendering of the pairs from `i` on, one line each.
pub open spec fn lines_rendered_from(
    prefix: Seq<char>,
    pairs: Seq<(Seq<char>, Seq<char>)>,
    i: int,
) -> Seq<char>
    decreases pairs.len() - i,
{
    if i < 0 || i >= pairs.len() {
        Seq::empty()
    } else {
        rendered_line(prefix, pairs[i].0, pairs[i].1) + lines_rendered_from(prefix, pairs, i + 1)
    }
}

/// The `.env` rendering of the pairs: `KEY="value"` lines.
pub open spec fn env_rendered(pairs: Seq<(Seq<char>, Seq<char>)>) -> Seq<char> {
    lines_rendered_from(Seq::empty(), pairs, 0)
}

/// The shell rendering of the pairs: `export KEY="value"` lines.
pub open spec fn shell_rendered(pairs: Seq<(Seq<char>, Seq<char>)>) -> Seq<char> {
    lines_rendered_from(export_prefix(), pairs, 0)
}

/// Renders one line per pair: `prefix` then `KEY="value"`.
fn format_lines<'a>(prefix: &str, entries: &Vec<OutputEntry<'a>>) -> (r: String)
    ensures
        r@ == lines_rendered_from(prefix@, entry_pairs(entries@), 0),
{
    let ghost pv = entry_pairs(entries@);
    let mut out = String::new();
    let n = entries.len();
    for i in 0..n
        invariant
            n == entries@.len(),
            pv == entry_pairs(entries@),
            pv.len() == entries@.len(),
            out@ + lines_rendered_from(prefix@, pv, i as int) == lines_rendered_from(
                prefix@,
                pv,
                0,
            ),
    {
        proof {
            assert(pv[i as int] == (entries@[i as int].0@, entries@[i as int].1@));
            reveal_strlit("=");
            reveal_strlit("\n");
            assert("="@ =~= seq!['=']);
            assert("\n"@ =~= seq!['\n']);
        }
        let ghost pre = out@;
        out.append(prefix);
        out.append(entries[i].0);
        out.append("=");
        let q = json_quote(entries[i].1);
        out.append(q.as_str());
        out.append("\n");
        proof {
            assert(out@ =~= pre + rendered_line(prefix@, pv[i as int].0, pv[i as int].1));
            assert(pre + (rendered_line(prefix@, pv[i as int].0, pv[i as int].1)
                + lines_rendered_from(prefix@, pv, i + 1)) =~= out@ + lines_rendered_from(
                prefix@,
                pv,
                i + 1,
            ));
        }
    }
    out
}

/// Formats environment entries into `.env` format.
pub struct EnvFormatter {}

impl EnvFormatter {
    pub fn new() -> Self {
        EnvFormatter {  }
    }
}

impl Formatter for EnvFormatter {
    open spec fn spec_format(&self, pairs: Seq<(Seq<char>, Seq<char>)>) -> Seq<char> {
        env_rendered(pairs)
    }

    /// Formats environment entries into `.env` format.
    fn format<'a>(&self, entries: &Vec<OutputEntry<'a>>) -> (r: String) {
        let r = format_lines("", entries);
        proof {
            reveal_strlit("");
            assert(""@ =~= Seq::<char>::empty());
        }
        r
    }
}

/// Formats environment entries into shell variable export commands.
pub struct ShellFormatter {}

impl ShellFormatter {
    pub fn new() -> Self {
        ShellFormatter {  }
    }
}

impl Formatter for ShellFormatter {
    open spec fn spec_format(&self, pairs: Seq<(Seq<char>, Seq<char>)>) -> Seq<char> {
        shell_rendered(pairs)
    }

    /// Formats environment entries into shell variable export commands.
    fn format<'a>(&self, entries: &Vec<OutputEntry<'a>>) -> (r: String) {
        let r = format_lines("export ", entries);
        proof {
            reveal_strlit("export ");
            assert("export "@ =~= export_prefix());
        }
        r
    }
}

// ---------------------------------------------------------------------------
// One JSON object.
// ---------------------------------------------------------------------------

/// The members of the JSON object for the pairs from `i` on, separated by
/// commas.
pub open spec fn json_members_from(pairs: Seq<(Seq<char>, Seq<char>)>, i: int) -> Seq<char>
    decreases pairs.len() - i,
{
    if i < 0 || i >= pairs.len() {
        Seq::empty()
    } else {
        (if i > 0 {
            seq![',']
        } else {
            Seq::empty()
        }) + json_quoted(pairs[i].0) + seq![':'] + json_quoted(pairs[i].1) + json_members_from(
            pairs,
            i + 1,
        )
    }
}

/// The JSON rendering of the pairs: one object, in pair order, and a
/// final newline.
pub open spec fn json_rendered(pairs: Seq<(Seq<char>, Seq<char>)>) -> Seq<char> {
    seq!['{'] + json_members_from(pairs, 0) + seq!['}', '\n']
}

/// Formats environment entries into JSON.
pub struct JsonFormatter {}

impl JsonFormatter {
    pub fn new() -> Self {
        JsonFormatter {  }
    }
}

impl Formatter for JsonFormatter {
    open spec fn spec_format(&self, pairs: Seq<(Seq<char>, Seq<char>)>) -> Seq<char> {
        json_rendered(pairs)
    }

    /// Formats environment entries into JSON of the form `{"KEY": "value"}`.
    fn format<'a>(&self, entries: &Vec<OutputEntry<'a>>) -> (r: String) {
        let ghost pv = entry_pairs(entries@);
        let mut out = String::new();
        proof {
            reveal_strlit("{");
            assert("{"@ =~= seq!['{']);
        }
        out.append("{");
        let n = entries.len();
        for i in 0..n
            invariant
                n == entries@.len(),
                pv == entry_pairs(entries@),
                pv.len() == entries@.len(),
                out@ + json_members_from(pv, i as int) == seq!['{'] + json_members_from(pv, 0),
        {
            proof {
                assert(pv[i as int] == (entries@[i as int].0@, entries@[i as int].1@));
                reveal_strlit(",");
                reveal_strlit(":");
                assert(","@ =~= seq![',']);
                assert(":"@ =~= seq![':']);
            }
            let ghost pre = out@;
            if i > 0 {
                out.append(",");
            }
            let qk = json_quote(entries[i].0);
            out.append(qk.as_str());
            out.append(":");
            let qv = json_quote(entries[i].1);
            out.append(qv.as_str());
            proof {
                let ghost piece = (if i > 0 {
                    seq![',']
                } else {
                    Seq::<char>::empty()
                }) + json_quoted(pv[i as int].0) + seq![':'] + json_quoted(pv[i as int].1);
                assert(out@ =~= pre + piece);
                assert(pre + (piece + json_members_from(pv, i + 1)) =~= out@ + json_members_from(
                    pv,
                    i + 1,
                ));
            }
        }
        proof {
            reveal_strlit("}\n");
            assert("}\n"@ =~= seq!['}', '\n']);
        }
        out.append("}\n");
        proof {
            assert(out@ =~= json_rendered(pv));
        }
        out
    }
}

} // verus!
