//! The declaration grammar: turns raw text into an ordered sequence of
//! entries.
//!
//! A line is blank, a comment, or a declaration `[export ]KEY[=|:]value`.
//! A comment of the form `# @aws-sm <pattern> [@optional]` (or `@aws-ps`)
//! is a directive that attaches to the next declaration. Values may be
//! raw (trimmed, cut at an unescaped `#`), or quoted with `"`, `'` or
//! `` ` `` (verbatim, with `\<delimiter>` unescaping). When a key repeats,
//! the last declaration wins while the key keeps its first position.

use vstd::prelude::*;

use crate::chars::chars_eq;
use crate::chars::chars_to_string;
use crate::chars::is_space_char;
use crate::chars::is_word_char;
use crate::chars::space_char;
use crate::chars::str_to_chars;
use crate::chars::subvec;
use crate::chars::word_char;
use crate::error::Error;
use crate::error::IssueView;
use crate::error::ParseIssue;
use crate::error::ParseIssueKind;

verus! {

/// Which backend a directive points at, and the identifier pattern to use
/// with it.
#[derive(Debug, PartialEq, Eq, Clone)]
pub enum SecretProviderConfig {
    AwsSm(String),
    AwsPs(String),
}

/// Spec-level image of a [`SecretProviderConfig`].
pub enum ProviderView {
    AwsSm(Seq<char>),
    AwsPs(Seq<char>),
}

impl View for SecretProviderConfig {
    type V = ProviderView;

    open spec fn view(&self) -> ProviderView {
        match self {
            SecretProviderConfig::AwsSm(s) => ProviderView::AwsSm(s@),
            SecretProviderConfig::AwsPs(s) => ProviderView::AwsPs(s@),
        }
    }
}

impl DeepView for SecretProviderConfig {
    type V = ProviderView;

    open spec fn deep_view(&self) -> ProviderView {
        self.view()
    }
}

/// A secret directive: the backend-specific identifier pattern and whether
/// a missing secret is fatal.
#[derive(Debug, PartialEq, Eq, Clone)]
pub struct SecretConfig {
    pub required: bool,
    pub provider_config: SecretProviderConfig,
}

/// Spec-level image of a [`SecretConfig`].
pub struct SecretView {
    pub required: bool,
    pub provider_config: ProviderView,
}

impl View for SecretConfig {
    type V = SecretView;

    open spec fn view(&self) -> SecretView {
        SecretView { required: self.required, provider_config: self.provider_config@ }
    }
}

impl DeepView for SecretConfig {
    type V = SecretView;

    open spec fn deep_view(&self) -> SecretView {
        self.view()
    }
}

/// Represents a single env entry.
#[derive(Debug, PartialEq, Eq, Clone)]
pub struct EnvEntry {
    pub key: String,
    pub value: Option<String>,
    pub secret: Option<SecretConfig>,
}

/// Spec-level image of an [`EnvEntry`].
pub struct EntryView {
    pub key: Seq<char>,
    pub value: Option<Seq<char>>,
    pub secret: Option<SecretView>,
}

impl View for EnvEntry {
    type V = EntryView;

    open spec fn view(&self) -> EntryView {
        EntryView {
            key: self.key@,
            value: self.value.deep_view(),
            secret: self.secret.deep_view(),
        }
    }
}

impl DeepView for EnvEntry {
    type V = EntryView;

    open spec fn deep_view(&self) -> EntryView {
        self.view()
    }
}

/// List of [`EnvEntry`]s.
pub type EnvEntries = Vec<EnvEntry>;

// ---------------------------------------------------------------------------
// Scanning primitives.
// ---------------------------------------------------------------------------

/// The first position at or after `i` holding a non-space character, or the
/// length of `s`.
pub open spec fn skip_spaces(s: Seq<char>, i: int) -> int
    decreases s.len() - i,
{
    if 0 <= i < s.len() && is_space_char(s[i]) {
        skip_spaces(s, i + 1)
    } else {
        i
    }
}

/// The first position at or after `i` holding a space character, or the
/// length of `s`.
pub open spec fn skip_nonspace(s: Seq<char>, i: int) -> int
    decreases s.len() - i,
{
    if 0 <= i < s.len() && !is_space_char(s[i]) {
        skip_nonspace(s, i + 1)
    } else {
        i
    }
}

/// The first position at or after `i` holding a non-word character, or the
/// length of `s`.
pub open spec fn skip_word(s: Seq<char>, i: int) -> int
    decreases s.len() - i,
{
    if 0 <= i < s.len() && is_word_char(s[i]) {
        skip_word(s, i + 1)
    } else {
        i
    }
}

/// The last position at or before `i` preceded by a non-space character,
/// or zero.
pub open spec fn rskip_spaces(s: Seq<char>, i: int) -> int
    decreases i,
{
    if 0 < i <= s.len() && is_space_char(s[i - 1]) {
        rskip_spaces(s, i - 1)
    } else {
        i
    }
}

/// `s` without its leading and trailing whitespace.
pub open spec fn trimmed(s: Seq<char>) -> Seq<char> {
    let a = skip_spaces(s, 0);
    if a == s.len() {
        Seq::empty()
    } else {
        s.subrange(a, rskip_spaces(s, s.len() as int))
    }
}

/// True when `p` is a prefix of `s`.
pub open spec fn has_prefix(s: Seq<char>, p: Seq<char>) -> bool {
    p.len() <= s.len() && s.subrange(0, p.len() as int) == p
}

/// Executable form of [`skip_spaces`].
pub fn scan_spaces(v: &Vec<char>, i: usize) -> (r: usize)
    requires
        i <= v@.len(),
    ensures
        r == skip_spaces(v@, i as int),
        i <= r <= v@.len(),
        r < v@.len() ==> !is_space_char(v@[r as int]),
        forall|k: int| i <= k < r ==> is_space_char(v@[k]),
{
    let mut j = i;
    while j < v.len() && space_char(v[j])
        invariant
            i <= j <= v@.len(),
            skip_spaces(v@, i as int) == skip_spaces(v@, j as int),
            forall|k: int| i <= k < j ==> is_space_char(v@[k]),
        decreases v@.len() - j,
    {
        j += 1;
    }
    j
}

/// Executable form of [`skip_nonspace`].
pub fn scan_nonspace(v: &Vec<char>, i: usize) -> (r: usize)
    requires
        i <= v@.len(),
    ensures
        r == skip_nonspace(v@, i as int),
        i <= r <= v@.len(),
        r < v@.len() ==> is_space_char(v@[r as int]),
        forall|k: int| i <= k < r ==> !is_space_char(v@[k]),
{
    let mut j = i;
    while j < v.len() && !space_char(v[j])
        invariant
            i <= j <= v@.len(),
            skip_nonspace(v@, i as int) == skip_nonspace(v@, j as int),
            forall|k: int| i <= k < j ==> !is_space_char(v@[k]),
        decreases v@.len() - j,
    {
        j += 1;
    }
    j
}

/// Executable form of [`skip_word`].
pub fn scan_word(v: &Vec<char>, i: usize) -> (r: usize)
    requires
        i <= v@.len(),
    ensures
        r == skip_word(v@, i as int),
        i <= r <= v@.len(),
        r < v@.len() ==> !is_word_char(v@[r as int]),
        forall|k: int| i <= k < r ==> is_word_char(v@[k]),
{
    let mut j = i;
    while j < v.len() && word_char(v[j])
        invariant
            i <= j <= v@.len(),
            skip_word(v@, i as int) == skip_word(v@, j as int),
            forall|k: int| i <= k < j ==> is_word_char(v@[k]),
        decreases v@.len() - j,
    {
        j += 1;
    }
    j
}

/// Executable form of [`trimmed`].
pub fn trim(v: &Vec<char>) -> (r: Vec<char>)
    ensures
        r@ == trimmed(v@),
{
    let a = scan_spaces(v, 0);
    if a == v.len() {
        let r: Vec<char> = Vec::new();
        proof {
            assert(r@ =~= trimmed(v@));
        }
        r
    } else {
        let mut b = v.len();
        while b > a && space_char(v[b - 1])
            invariant
                a < b <= v@.len(),
                a < v@.len(),
                !is_space_char(v@[a as int]),
                rskip_spaces(v@, v@.len() as int) == rskip_spaces(v@, b as int),
            decreases b,
        {
            b -= 1;
            proof {
                assert(b > a) by {
                    if b == a {
                        assert(is_space_char(v@[a as int]));
                    }
                }
            }
        }
        subvec(v, a, b)
    }
}

/// Executable form of [`has_prefix`].
pub fn starts_with_chars(v: &Vec<char>, p: &Vec<char>) -> (r: bool)
    ensures
        r == has_prefix(v@, p@),
{
    if p.len() > v.len() {
        return false;
    }
    let n = p.len();
    for i in 0..n
        invariant
            n == p@.len() <= v@.len(),
            forall|j: int| 0 <= j < i ==> v@[j] == p@[j],
    {
        if v[i] != p[i] {
            proof {
                assert(!has_prefix(v@, p@)) by {
                    if has_prefix(v@, p@) {
                        assert(v@.subrange(0, p@.len() as int)[i as int] == p@[i as int]);
                    }
                }
            }
            return false;
        }
    }
    proof {
        assert(v@.subrange(0, p@.len() as int) =~= p@);
    }
    true
}

// ---------------------------------------------------------------------------
// Fixed tokens of the grammar.
// ---------------------------------------------------------------------------

/// The directive tag of the bulk secret store.
pub open spec fn sm_tag() -> Seq<char> {
    seq!['@', 'a', 'w', 's', '-', 's', 'm']
}

/// The directive tag of the parameter store.
pub open spec fn ps_tag() -> Seq<char> {
    seq!['@', 'a', 'w', 's', '-', 'p', 's']
}

/// The marker that makes a directive optional.
pub open spec fn optional_marker() -> Seq<char> {
    seq!['@', 'o', 'p', 't', 'i', 'o', 'n', 'a', 'l']
}

/// The `export` keyword tolerated before a key.
pub open spec fn export_kw() -> Seq<char> {
    seq!['e', 'x', 'p', 'o', 'r', 't']
}

fn sm_tag_vec() -> (v: Vec<char>)
    ensures
        v@ == sm_tag(),
{
    let mut v: Vec<char> = Vec::new();
    v.push('@');
    v.push('a');
    v.push('w');
    v.push('s');
    v.push('-');
    v.push('s');
    v.push('m');
    proof {
        assert(v@ =~= sm_tag());
    }
    v
}

fn ps_tag_vec() -> (v: Vec<char>)
    ensures
        v@ == ps_tag(),
{
    let mut v: Vec<char> = Vec::new();
    v.push('@');
    v.push('a');
    v.push('w');
    v.push('s');
    v.push('-');
    v.push('p');
    v.push('s');
    proof {
        assert(v@ =~= ps_tag());
    }
    v
}

fn optional_marker_vec() -> (v: Vec<char>)
    ensures
        v@ == optional_marker(),
{
    let mut v: Vec<char> = Vec::new();
    v.push('@');
    v.push('o');
    v.push('p');
    v.push('t');
    v.push('i');
    v.push('o');
    v.push('n');
    v.push('a');
    v.push('l');
    proof {
        assert(v@ =~= optional_marker());
    }
    v
}

fn export_kw_vec() -> (v: Vec<char>)
    ensures
        v@ == export_kw(),
{
    let mut v: Vec<char> = Vec::new();
    v.push('e');
    v.push('x');
    v.push('p');
    v.push('o');
    v.push('r');
    v.push('t');
    proof {
        assert(v@ =~= export_kw());
    }
    v
}

// ---------------------------------------------------------------------------
// Classifying one line.
// ---------------------------------------------------------------------------

/// What one line of input means.
pub enum LineView {
    /// Nothing but whitespace.
    Blank,
    /// A comment that is not a directive.
    PlainComment,
    /// A directive comment, waiting for the next declaration.
    DirectiveLine(SecretView),
    /// A declaration: a key and an optional default value.
    DeclLine(Seq<char>, Option<Seq<char>>),
    /// A malformed line.
    BadLine(ParseIssueKind),
}

/// Scans the inside of a quoted value from `i` on: `\<q>` unescapes to the
/// delimiter, an unescaped `q` closes the value. Returns the content and
/// the position right after the closing delimiter, or fails when the line
/// ends first.
pub open spec fn scan_quoted(v: Seq<char>, i: int, q: char, acc: Seq<char>) -> Result<
    (Seq<char>, int),
    ParseIssueKind,
>
    decreases v.len() - i,
{
    if i < 0 || i >= v.len() {
        Err(ParseIssueKind::UnterminatedValue)
    } else if v[i] == '\\' && i + 1 < v.len() && v[i + 1] == q {
        scan_quoted(v, i + 2, q, acc.push(q))
    } else if v[i] == q {
        Ok((acc, i + 1))
    } else {
        scan_quoted(v, i + 1, q, acc.push(v[i]))
    }
}

/// The position of the first unescaped `#` at or after `i`, or the length
/// of `v`.
pub open spec fn find_hash(v: Seq<char>, i: int) -> int
    decreases v.len() - i,
{
    if i < 0 || i >= v.len() {
        v.len() as int
    } else if v[i] == '#' && (i == 0 || v[i - 1] != '\\') {
        i
    } else {
        find_hash(v, i + 1)
    }
}

/// The value of a declaration, read from the text after the separator:
/// absent when empty, quoted (verbatim, unescaping the delimiter), or raw
/// (trimmed, cut at an unescaped `#`).
pub open spec fn parse_value(v: Seq<char>) -> Result<Option<Seq<char>>, ParseIssueKind> {
    let a = skip_spaces(v, 0);
    if a >= v.len() {
        Ok(None)
    } else if v[a] == '"' || v[a] == '\'' || v[a] == '`' {
        match scan_quoted(v, a + 1, v[a], Seq::empty()) {
            Err(k) => Err(k),
            Ok((content, j)) => {
                let t = skip_spaces(v, j);
                if t < v.len() && v[t] != '#' {
                    Err(ParseIssueKind::TrailingAfterQuote)
                } else if content.len() == 0 {
                    Ok(None)
                } else {
                    Ok(Some(content))
                }
            },
        }
    } else {
        let h = find_hash(v, a);
        let raw = trimmed(v.subrange(a, h));
        if raw.len() == 0 {
            Ok(None)
        } else {
            Ok(Some(raw))
        }
    }
}

/// The provider configuration for a directive tag and pattern.
pub open spec fn mk_provider(sm: bool, id: Seq<char>) -> ProviderView {
    if sm {
        ProviderView::AwsSm(id)
    } else {
        ProviderView::AwsPs(id)
    }
}

/// Reads a directive's pattern and optional marker after its tag ends at
/// `k` in `r`; anything unexpected makes the line a plain comment.
pub open spec fn directive_after(r: Seq<char>, k: int, sm: bool) -> LineView {
    if k >= r.len() || !is_space_char(r[k]) {
        LineView::PlainComment
    } else {
        let p = skip_spaces(r, k);
        let e = skip_nonspace(r, p);
        if p == e {
            LineView::PlainComment
        } else {
            let pat = r.subrange(p, e);
            let tail = trimmed(r.subrange(e, r.len() as int));
            if tail.len() == 0 {
                LineView::DirectiveLine(
                    SecretView { required: true, provider_config: mk_provider(sm, pat) },
                )
            } else if tail == optional_marker() {
                LineView::DirectiveLine(
                    SecretView { required: false, provider_config: mk_provider(sm, pat) },
                )
            } else {
                LineView::PlainComment
            }
        }
    }
}

/// Classifies a trimmed comment line: a directive when it carries a known
/// tag, a pattern and at most an `@optional` marker; otherwise plain.
pub open spec fn classify_comment(t: Seq<char>) -> LineView {
    let r = trimmed(t.subrange(1, t.len() as int));
    if has_prefix(r, sm_tag()) {
        directive_after(r, sm_tag().len() as int, true)
    } else if has_prefix(r, ps_tag()) {
        directive_after(r, ps_tag().len() as int, false)
    } else {
        LineView::PlainComment
    }
}

/// Classifies a trimmed non-comment, non-blank line as a declaration:
/// an optional `export` keyword, a non-empty word-character key, `=` or
/// `:`, and a value.
pub open spec fn classify_decl(t: Seq<char>) -> LineView {
    let u = if has_prefix(t, export_kw()) && t.len() > export_kw().len() && is_space_char(
        t[export_kw().len() as int],
    ) {
        trimmed(t.subrange(export_kw().len() as int, t.len() as int))
    } else {
        t
    };
    let ke = skip_word(u, 0);
    if ke == 0 {
        LineView::BadLine(ParseIssueKind::MalformedLine)
    } else {
        let sp = skip_spaces(u, ke);
        if sp >= u.len() || !(u[sp] == '=' || u[sp] == ':') {
            LineView::BadLine(ParseIssueKind::MalformedLine)
        } else {
            match parse_value(u.subrange(sp + 1, u.len() as int)) {
                Ok(val) => LineView::DeclLine(u.subrange(0, ke), val),
                Err(k) => LineView::BadLine(k),
            }
        }
    }
}

/// Classifies one line of input.
pub open spec fn classify_line(l: Seq<char>) -> LineView {
    let t = trimmed(l);
    if t.len() == 0 {
        LineView::Blank
    } else if t[0] == '#' {
        classify_comment(t)
    } else {
        classify_decl(t)
    }
}

/// Executable image of a classified line.
enum LineForm {
    Blank,
    PlainComment,
    DirectiveLine(SecretConfig),
    DeclLine(String, Option<String>),
    BadLine(ParseIssueKind),
}

spec fn form_view(f: LineForm) -> LineView {
    match f {
        LineForm::Blank => LineView::Blank,
        LineForm::PlainComment => LineView::PlainComment,
        LineForm::DirectiveLine(d) => LineView::DirectiveLine(d@),
        LineForm::DeclLine(k, v) => LineView::DeclLine(k@, v.deep_view()),
        LineForm::BadLine(k) => LineView::BadLine(k),
    }
}

/// Executable form of [`scan_quoted`].
fn scan_quoted_exec(v: &Vec<char>, start: usize, q: char) -> (r: Result<
    (Vec<char>, usize),
    ParseIssueKind,
>)
    requires
        start <= v@.len(),
    ensures
        match r {
            Ok(p) => scan_quoted(v@, start as int, q, Seq::empty()) == Ok::<_, ParseIssueKind>(
                (p.0@, p.1 as int),
            ) && p.1 <= v@.len(),
            Err(k) => scan_quoted(v@, start as int, q, Seq::empty()) == Err::<
                (Seq<char>, int),
                _,
            >(k),
        },
{
    let mut i = start;
    let mut acc: Vec<char> = Vec::new();
    loop
        invariant
            start <= i <= v@.len(),
            scan_quoted(v@, start as int, q, Seq::empty()) == scan_quoted(
                v@,
                i as int,
                q,
                acc@,
            ),
        decreases v@.len() - i,
    {
        if i >= v.len() {
            return Err(ParseIssueKind::UnterminatedValue);
        }
        let c = v[i];
        if c == '\\' && i + 1 < v.len() && v[i + 1] == q {
            acc.push(q);
            i += 2;
        } else if c == q {
            return Ok((acc, i + 1));
        } else {
            acc.push(c);
            i += 1;
        }
    }
}

/// Executable form of [`find_hash`].
fn find_hash_exec(v: &Vec<char>, start: usize) -> (r: usize)
    requires
        start <= v@.len(),
    ensures
        r == find_hash(v@, start as int),
        start <= r <= v@.len(),
{
    let mut i = start;
    loop
        invariant
            start <= i <= v@.len(),
            find_hash(v@, start as int) == find_hash(v@, i as int),
        decreases v@.len() - i,
    {
        if i >= v.len() {
            return i;
        }
        if v[i] == '#' && (i == 0 || v[i - 1] != '\\') {
            return i;
        }
        i += 1;
    }
}

/// Executable form of [`parse_value`].
fn parse_value_exec(v: &Vec<char>) -> (r: Result<Option<String>, ParseIssueKind>)
    ensures
        match r {
            Ok(o) => parse_value(v@) == Ok::<_, ParseIssueKind>(o.deep_view()),
            Err(k) => parse_value(v@) == Err::<Option<Seq<char>>, _>(k),
        },
{
    let a = scan_spaces(v, 0);
    if a >= v.len() {
        return Ok(None);
    }
    let c = v[a];
    if c == '"' || c == '\'' || c == '`' {
        match scan_quoted_exec(v, a + 1, c) {
            Err(k) => Err(k),
            Ok((content, j)) => {
                let t = scan_spaces(v, j);
                if t < v.len() && v[t] != '#' {
                    Err(ParseIssueKind::TrailingAfterQuote)
                } else if content.len() == 0 {
                    Ok(None)
                } else {
                    Ok(Some(chars_to_string(&content)))
                }
            },
        }
    } else {
        let h = find_hash_exec(v, a);
        let cut = subvec(v, a, h);
        let raw = trim(&cut);
        if raw.len() == 0 {
            Ok(None)
        } else {
            Ok(Some(chars_to_string(&raw)))
        }
    }
}

/// Executable form of [`directive_after`].
fn directive_after_exec(r: &Vec<char>, k: usize, sm: bool) -> (f: LineForm)
    requires
        k <= r@.len(),
    ensures
        form_view(f) == directive_after(r@, k as int, sm),
{
    if k >= r.len() || !space_char(r[k]) {
        return LineForm::PlainComment;
    }
    let p = scan_spaces(r, k);
    let e = scan_nonspace(r, p);
    if p == e {
        return LineForm::PlainComment;
    }
    let pat = chars_to_string(&subvec(r, p, e));
    let after = subvec(r, e, r.len());
    let tail = trim(&after);
    let required: bool;
    if tail.len() == 0 {
        required = true;
    } else {
        let om = optional_marker_vec();
        if chars_eq(&tail, &om) {
            required = false;
        } else {
            return LineForm::PlainComment;
        }
    }
    let provider = if sm {
        SecretProviderConfig::AwsSm(pat)
    } else {
        SecretProviderConfig::AwsPs(pat)
    };
    LineForm::DirectiveLine(SecretConfig { required, provider_config: provider })
}

/// Executable form of [`classify_comment`].
fn classify_comment_exec(t: &Vec<char>) -> (f: LineForm)
    requires
        t@.len() > 0,
        t@[0] == '#',
    ensures
        form_view(f) == classify_comment(t@),
{
    let rest = subvec(t, 1, t.len());
    let r = trim(&rest);
    let smv = sm_tag_vec();
    if starts_with_chars(&r, &smv) {
        return directive_after_exec(&r, smv.len(), true);
    }
    let psv = ps_tag_vec();
    if starts_with_chars(&r, &psv) {
        return directive_after_exec(&r, psv.len(), false);
    }
    LineForm::PlainComment
}

/// Executable form of [`classify_decl`].
fn classify_decl_exec(t: &Vec<char>) -> (f: LineForm)
    ensures
        form_view(f) == classify_decl(t@),
{
    let ek = export_kw_vec();
    let u: Vec<char>;
    if starts_with_chars(t, &ek) && t.len() > ek.len() && space_char(t[ek.len()]) {
        let tail = subvec(t, ek.len(), t.len());
        u = trim(&tail);
    } else {
        u = subvec(t, 0, t.len());
        proof {
            assert(u@ =~= t@);
        }
    }
    let ke = scan_word(&u, 0);
    if ke == 0 {
        return LineForm::BadLine(ParseIssueKind::MalformedLine);
    }
    let sp = scan_spaces(&u, ke);
    if sp >= u.len() {
        return LineForm::BadLine(ParseIssueKind::MalformedLine);
    }
    let sc = u[sp];
    if !(sc == '=' || sc == ':') {
        return LineForm::BadLine(ParseIssueKind::MalformedLine);
    }
    let vp = subvec(&u, sp + 1, u.len());
    match parse_value_exec(&vp) {
        Err(k) => LineForm::BadLine(k),
        Ok(val) => {
            let key = chars_to_string(&subvec(&u, 0, ke));
            LineForm::DeclLine(key, val)
        },
    }
}

/// Executable form of [`classify_line`].
fn classify_exec(l: &Vec<char>) -> (f: LineForm)
    ensures
        form_view(f) == classify_line(l@),
{
    let t = trim(l);
    if t.len() == 0 {
        LineForm::Blank
    } else if t[0] == '#' {
        classify_comment_exec(&t)
    } else {
        classify_decl_exec(&t)
    }
}

// ---------------------------------------------------------------------------
// Splitting into lines, and the parse itself.
// ---------------------------------------------------------------------------

/// The lines of `s` from `i` on, with `cur` the part of the current line
/// read so far; lines are separated by `\n`.
pub open spec fn lines_acc(s: Seq<char>, i: int, cur: Seq<char>) -> Seq<Seq<char>>
    decreases s.len() - i,
{
    if i < 0 || i >= s.len() {
        seq![cur]
    } else if s[i] == '\n' {
        seq![cur] + lines_acc(s, i + 1, Seq::empty())
    } else {
        lines_acc(s, i + 1, cur.push(s[i]))
    }
}

/// The lines of `s`.
pub open spec fn lines_of(s: Seq<char>) -> Seq<Seq<char>> {
    lines_acc(s, 0, Seq::empty())
}

/// Executable form of [`lines_of`].
fn split_lines(cs: &Vec<char>) -> (r: Vec<Vec<char>>)
    ensures
        r.deep_view() == lines_of(cs@),
{
    let mut out: Vec<Vec<char>> = Vec::new();
    let mut cur: Vec<char> = Vec::new();
    let n = cs.len();
    for i in 0..n
        invariant
            n == cs@.len(),
            lines_of(cs@) == out.deep_view() + lines_acc(cs@, i as int, cur@),
    {
        if cs[i] == '\n' {
            let ghost old_out = out.deep_view();
            let ghost old_cur = cur@;
            out.push(cur);
            cur = Vec::new();
            proof {
                assert(out.deep_view() =~~= old_out.push(old_cur));
                assert(cur@ =~= Seq::<char>::empty());
                assert(old_out + (seq![old_cur] + lines_acc(cs@, i + 1, Seq::empty()))
                    =~= out.deep_view() + lines_acc(cs@, i + 1, cur@));
            }
        } else {
            cur.push(cs[i]);
        }
    }
    let ghost old_out = out.deep_view();
    let ghost old_cur = cur@;
    out.push(cur);
    proof {
        assert(out.deep_view() =~~= old_out.push(old_cur));
        assert(old_out + seq![old_cur] =~= out.deep_view());
    }
    out
}

/// The first index at or after `j` whose entry has key `k`, or `-1`.
pub open spec fn find_entry_from(acc: Seq<EntryView>, k: Seq<char>, j: int) -> int
    decreases acc.len() - j,
{
    if j < 0 || j >= acc.len() {
        -1
    } else if acc[j].key == k {
        j
    } else {
        find_entry_from(acc, k, j + 1)
    }
}

/// Adds `e` to `acc`: when its key is already present the entry is replaced
/// in place (the key keeps its first position), otherwise it is appended.
pub open spec fn upsert_entry(acc: Seq<EntryView>, e: EntryView) -> Seq<EntryView> {
    let j = find_entry_from(acc, e.key, 0);
    if j < 0 {
        acc.push(e)
    } else {
        acc.update(j, e)
    }
}

/// Folds the classified lines from `i` on into entries: a directive waits
/// for the next declaration, a declaration takes the pending directive,
/// and a malformed line fails with its one-based line number.
pub open spec fn parse_from(
    lines: Seq<Seq<char>>,
    i: int,
    pending: Option<SecretView>,
    acc: Seq<EntryView>,
) -> Result<Seq<EntryView>, IssueView>
    decreases lines.len() - i,
{
    if i < 0 || i >= lines.len() {
        Ok(acc)
    } else {
        match classify_line(lines[i]) {
            LineView::Blank => parse_from(lines, i + 1, pending, acc),
            LineView::PlainComment => parse_from(lines, i + 1, pending, acc),
            LineView::DirectiveLine(d) => parse_from(lines, i + 1, Some(d), acc),
            LineView::DeclLine(k, val) => parse_from(
                lines,
                i + 1,
                None,
                upsert_entry(acc, EntryView { key: k, value: val, secret: pending }),
            ),
            LineView::BadLine(kind) => Err(IssueView { line: i + 1, kind }),
        }
    }
}

/// What parsing `s` yields.
pub open spec fn spec_parse(s: Seq<char>) -> Result<Seq<EntryView>, IssueView> {
    parse_from(lines_of(s), 0, None, Seq::empty())
}

proof fn lemma_find_entry_absent(acc: Seq<EntryView>, k: Seq<char>, j: int)
    requires
        0 <= j <= acc.len(),
        forall|m: int| j <= m < acc.len() ==> acc[m].key != k,
    ensures
        find_entry_from(acc, k, j) == -1,
    decreases acc.len() - j,
{
    if j < acc.len() {
        lemma_find_entry_absent(acc, k, j + 1);
    }
}

proof fn lemma_find_entry_found(acc: Seq<EntryView>, k: Seq<char>, j: int, m: int)
    requires
        0 <= j <= m < acc.len(),
        acc[m].key == k,
        forall|x: int| j <= x < m ==> acc[x].key != k,
    ensures
        find_entry_from(acc, k, j) == m,
    decreases acc.len() - j,
{
    if j < m {
        lemma_find_entry_found(acc, k, j + 1, m);
    }
}

/// True when no two entries share a key.
pub open spec fn unique_keys(s: Seq<EntryView>) -> bool {
    forall|i: int, j: int| 0 <= i < j < s.len() ==> (#[trigger] s[i]).key != (#[trigger] s[j]).key
}

/// Characterizes [`find_entry_from`]: a miss means no entry from `j` on
/// has the key; a hit is the first such entry.
pub proof fn lemma_find_entry_props(acc: Seq<EntryView>, k: Seq<char>, j: int)
    requires
        0 <= j <= acc.len(),
    ensures
        ({
            let r = find_entry_from(acc, k, j);
            &&& (r == -1 ==> forall|m: int| j <= m < acc.len() ==> (#[trigger] acc[m]).key != k)
            &&& (r != -1 ==> j <= r < acc.len() && acc[r].key == k && (forall|m: int|
                j <= m < r ==> (#[trigger] acc[m]).key != k))
        }),
    decreases acc.len() - j,
{
    if j < acc.len() && acc[j].key != k {
        lemma_find_entry_props(acc, k, j + 1);
    }
}

/// When a declaration's key is already present, the new declaration fully
/// replaces the old entry — value and directive alike — at the key's
/// first position; when it is new, it is appended; entries with other
/// keys are untouched, keys stay unique, and the new declaration is the
/// only entry left with its key.
pub proof fn lemma_last_declaration_wins(acc: Seq<EntryView>, e: EntryView)
    requires
        unique_keys(acc),
    ensures
        ({
            let r = upsert_entry(acc, e);
            let j = find_entry_from(acc, e.key, 0);
            &&& unique_keys(r)
            &&& (j >= 0 ==> r == acc.update(j, e) && r[j] == e)
            &&& (j < 0 ==> r == acc.push(e) && r[acc.len() as int] == e)
            &&& forall|m: int|
                0 <= m < acc.len() && (#[trigger] acc[m]).key != e.key ==> r[m] == acc[m]
            &&& forall|m: int| 0 <= m < r.len() && (#[trigger] r[m]).key == e.key ==> r[m] == e
        }),
{
    let r = upsert_entry(acc, e);
    let j = find_entry_from(acc, e.key, 0);
    lemma_find_entry_props(acc, e.key, 0);
    if j >= 0 {
        assert(acc[j].key == e.key);
        assert forall|m: int| 0 <= m < r.len() && (#[trigger] r[m]).key == e.key implies r[m]
            == e by {
            if m != j {
                assert(acc[m].key == e.key);
                assert(acc[j].key == acc[m].key);
            }
        }
        assert forall|x: int, y: int| 0 <= x < y < r.len() implies (#[trigger] r[x]).key != (
        #[trigger] r[y]).key by {
            assert(r[x].key == if x == j {
                e.key
            } else {
                acc[x].key
            });
            assert(r[y].key == if y == j {
                e.key
            } else {
                acc[y].key
            });
        }
    }
}

/// Parsing never yields two entries with one key: the final entries'
/// keys are unique.
pub proof fn lemma_parse_keys_unique(s: Seq<char>)
    ensures
        spec_parse(s) matches Ok(es) ==> unique_keys(es),
{
    lemma_parse_from_unique(lines_of(s), 0, None, Seq::empty());
}

proof fn lemma_parse_from_unique(
    lines: Seq<Seq<char>>,
    i: int,
    pending: Option<SecretView>,
    acc: Seq<EntryView>,
)
    requires
        unique_keys(acc),
    ensures
        parse_from(lines, i, pending, acc) matches Ok(es) ==> unique_keys(es),
    decreases lines.len() - i,
{
    if 0 <= i < lines.len() {
        match classify_line(lines[i]) {
            LineView::Blank => {
                lemma_parse_from_unique(lines, i + 1, pending, acc);
            },
            LineView::PlainComment => {
                lemma_parse_from_unique(lines, i + 1, pending, acc);
            },
            LineView::DirectiveLine(d) => {
                lemma_parse_from_unique(lines, i + 1, Some(d), acc);
            },
            LineView::DeclLine(k, val) => {
                let e = EntryView { key: k, value: val, secret: pending };
                lemma_last_declaration_wins(acc, e);
                lemma_parse_from_unique(lines, i + 1, None, upsert_entry(acc, e));
            },
            LineView::BadLine(_) => {},
        }
    }
}

/// Executable form of [`upsert_entry`].
fn upsert_exec(out: &mut Vec<EnvEntry>, e: EnvEntry)
    ensures
        final(out).deep_view() == upsert_entry(old(out).deep_view(), e.deep_view()),
{
    let n = out.len();
    for j in 0..n
        invariant
            n == out@.len(),
            out.deep_view() == old(out).deep_view(),
            forall|m: int| 0 <= m < j ==> out.deep_view()[m].key != e.deep_view().key,
    {
        proof {
            assert(out.deep_view()[j as int] == out@[j as int].deep_view());
        }
        if out[j].key == e.key {
            let ghost pre = out.deep_view();
            proof {
                lemma_find_entry_found(pre, e.deep_view().key, 0, j as int);
            }
            out[j] = e;
            proof {
                assert(out.deep_view() =~= pre.update(j as int, e.deep_view()));
            }
            return;
        }
    }
    let ghost pre = out.deep_view();
    proof {
        lemma_find_entry_absent(pre, e.deep_view().key, 0);
    }
    out.push(e);
    proof {
        assert(out.deep_view() =~= pre.push(e.deep_view()));
    }
}

/// Parses a string representing the contents of an .env file, returning
/// [`EnvEntries`]: one entry per declaration, in first-seen key order,
/// the last declaration of a key winning, each entry carrying the
/// directive comment that immediately preceded it, if any.
pub fn parse(input: &str) -> (r: Result<EnvEntries, Error>)
    ensures
        match r {
            Ok(entries) => spec_parse(input@) == Ok::<_, IssueView>(entries.deep_view()),
            Err(e) => {
                &&& e matches Error::ParsingError(pi)
                &&& spec_parse(input@) == Err::<Seq<EntryView>, _>(pi@)
            },
        },
{
    let cs = str_to_chars(input);
    let lines = split_lines(&cs);
    let ghost lv = lines_of(cs@);
    let mut pending: Option<SecretConfig> = None;
    let mut out: Vec<EnvEntry> = Vec::new();
    proof {
        assert(out.deep_view() =~= Seq::<EntryView>::empty());
    }
    let n = lines.len();
    for i in 0..n
        invariant
            n == lines@.len(),
            lines.deep_view() == lv,
            lv.len() == lines@.len(),
            cs@ == input@,
            parse_from(lv, i as int, pending.deep_view(), out.deep_view()) == spec_parse(input@),
    {
        proof {
            assert(lines.deep_view()[i as int] == lines@[i as int].deep_view());
            assert(lines@[i as int].deep_view() =~= lines@[i as int]@);
        }
        let ghost pend0 = pending.deep_view();
        let ghost acc0 = out.deep_view();
        let form = classify_exec(&lines[i]);
        proof {
            assert(form_view(form) == classify_line(lv[i as int]));
        }
        match form {
            LineForm::Blank => {
                proof {
                    assert(parse_from(lv, i as int, pend0, acc0) == parse_from(
                        lv,
                        i + 1,
                        pend0,
                        acc0,
                    ));
                }
            },
            LineForm::PlainComment => {
                proof {
                    assert(parse_from(lv, i as int, pend0, acc0) == parse_from(
                        lv,
                        i + 1,
                        pend0,
                        acc0,
                    ));
                }
            },
            LineForm::DirectiveLine(d) => {
                proof {
                    assert(parse_from(lv, i as int, pend0, acc0) == parse_from(
                        lv,
                        i + 1,
                        Some(d.deep_view()),
                        acc0,
                    ));
                }
                pending = Some(d);
            },
            LineForm::DeclLine(k, val) => {
                let sec = pending;
                pending = None;
                let e = EnvEntry { key: k, value: val, secret: sec };
                proof {
                    assert(parse_from(lv, i as int, pend0, acc0) == parse_from(
                        lv,
                        i + 1,
                        None,
                        upsert_entry(acc0, e.deep_view()),
                    ));
                }
                upsert_exec(&mut out, e);
            },
            LineForm::BadLine(kind) => {
                proof {
                    assert(parse_from(lv, i as int, pend0, acc0) == Err::<Seq<EntryView>, _>(
                        IssueView { line: i + 1, kind },
                    ));
                }
                return Err(Error::ParsingError(ParseIssue { line: i + 1, kind }));
            },
        }
    }
    proof {
        assert(parse_from(lv, n as int, pending.deep_view(), out.deep_view()) == Ok::<
            _,
            IssueView,
        >(out.deep_view()));
    }
    Ok(out)
}

} // verus!

