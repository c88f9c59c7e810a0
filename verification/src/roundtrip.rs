//! The round trip: rendering entries in `.env` form and parsing the text
//! back reconstructs the same key/value pairs.

use vstd::prelude::*;

use crate::chars::is_space_char;
use crate::chars::is_word_char;
use crate::error::IssueView;
use crate::error::ParseIssueKind;
use crate::formatters::env_rendered;
use crate::formatters::json_escape_char;
use crate::formatters::json_escaped_from;
use crate::formatters::json_quoted;
use crate::formatters::lines_rendered_from;
use crate::formatters::rendered_line;
use crate::parser::classify_decl;
use crate::parser::classify_line;
use crate::parser::has_prefix;
use crate::parser::export_kw;
use crate::parser::find_entry_from;
use crate::parser::lines_acc;
use crate::parser::lines_of;
use crate::parser::parse_from;
use crate::parser::parse_value;
use crate::parser::rskip_spaces;
use crate::parser::scan_quoted;
use crate::parser::skip_spaces;
use crate::parser::skip_word;
use crate::parser::spec_parse;
use crate::parser::trimmed;
use crate::parser::upsert_entry;
use crate::parser::EntryView;
use crate::parser::LineView;

verus! {

/// A key the renderer writes and the parser reads back as itself: one or
/// more word characters.
pub open spec fn renderable_key(k: Seq<char>) -> bool {
    k.len() > 0 && forall|m: int| 0 <= m < k.len() ==> is_word_char(#[trigger] k[m])
}

/// A value the renderer writes and the parser reads back as itself:
/// non-empty, no backslash, no control character. (A backslash or a
/// control character survives rendering only in JSON-escaped form, which
/// the declaration grammar keeps verbatim.)
pub open spec fn renderable_value(v: Seq<char>) -> bool {
    v.len() > 0 && forall|m: int|
        0 <= m < v.len() ==> (#[trigger] v[m]) != '\\' && (v[m] as u32) >= 0x20
}

/// Pairs the `.env` rendering round-trips: renderable keys and values,
/// no key repeated.
pub open spec fn renderable_pairs(pairs: Seq<(Seq<char>, Seq<char>)>) -> bool {
    &&& forall|i: int|
        0 <= i < pairs.len() ==> renderable_key((#[trigger] pairs[i]).0) && renderable_value(
            pairs[i].1,
        )
    &&& forall|i: int, j: int| 0 <= i < j < pairs.len() ==> pairs[i].0 != pairs[j].0
}

/// The entry a rendered pair parses back to.
pub open spec fn entry_of_pair(p: (Seq<char>, Seq<char>)) -> EntryView {
    EntryView { key: p.0, value: Some(p.1), secret: None }
}

/// One rendered line without its newline: `KEY="value"`.
pub open spec fn line_text(k: Seq<char>, v: Seq<char>) -> Seq<char> {
    k + seq!['='] + json_quoted(v)
}

// ---------------------------------------------------------------------------
// What the rendered text's lines are.
// ---------------------------------------------------------------------------

/// The escaping of a renderable value contains no newline.
proof fn lemma_escaped_tame(v: Seq<char>, i: int)
    requires
        renderable_value(v),
        0 <= i <= v.len(),
    ensures
        forall|m: int|
            0 <= m < json_escaped_from(v, i).len() ==> (#[trigger] json_escaped_from(v, i)[m])
                != '\n',
    decreases v.len() - i,
{
    if i < v.len() {
        lemma_escaped_tame(v, i + 1);
        let c = v[i];
        let e = json_escape_char(c);
        assert(forall|m: int| 0 <= m < e.len() ==> (#[trigger] e[m]) != '\n') by {
            if c != '"' {
                assert(e == seq![c]);
                assert(c != '\n');
            }
        }
        assert forall|m: int| 0 <= m < json_escaped_from(v, i).len() implies (#[trigger]
        json_escaped_from(v, i)[m]) != '\n' by {
            if m < e.len() {
                assert(json_escaped_from(v, i)[m] == e[m]);
            } else {
                assert(json_escaped_from(v, i)[m] == json_escaped_from(v, i + 1)[m - e.len()]);
            }
        }
    }
}

/// A rendered line contains no newline.
proof fn lemma_line_no_newline(k: Seq<char>, v: Seq<char>)
    requires
        renderable_key(k),
        renderable_value(v),
    ensures
        forall|m: int| 0 <= m < line_text(k, v).len() ==> (#[trigger] line_text(k, v)[m]) != '\n',
{
    let w = line_text(k, v);
    lemma_escaped_tame(v, 0);
    let esc = json_escaped_from(v, 0);
    assert forall|m: int| 0 <= m < w.len() implies (#[trigger] w[m]) != '\n' by {
        if m < k.len() {
            assert(w[m] == k[m]);
            assert(is_word_char(k[m]));
        } else if m == k.len() {
            assert(w[m] == '=');
        } else {
            let q = json_quoted(v);
            assert(w[m] == q[m - k.len() - 1]);
            let r = m - k.len() - 1;
            if r == 0 {
                assert(q[r] == '"');
            } else if r <= esc.len() {
                assert(q[r] == esc[r - 1]);
            } else {
                assert(q[r] == '"');
            }
        }
    }
}

/// `lines_acc` sees through a prefix already consumed.
proof fn lemma_lines_shift(u: Seq<char>, t: Seq<char>, j: int, cur: Seq<char>)
    requires
        j >= 0,
    ensures
        lines_acc(u + t, u.len() + j, cur) == lines_acc(t, j, cur),
    decreases t.len() - j,
{
    if j < t.len() {
        assert((u + t)[u.len() + j] == t[j]);
        if t[j] == '\n' {
            lemma_lines_shift(u, t, j + 1, Seq::empty());
        } else {
            lemma_lines_shift(u, t, j + 1, cur.push(t[j]));
        }
    }
}

/// Splitting `u`, a newline, then `rest`: the first line is `u`, the rest
/// split on their own.
proof fn lemma_lines_consume(u: Seq<char>, rest: Seq<char>, i: int, cur: Seq<char>)
    requires
        0 <= i <= u.len(),
        forall|m: int| 0 <= m < u.len() ==> (#[trigger] u[m]) != '\n',
    ensures
        lines_acc(u + seq!['\n'] + rest, i, cur) == seq![cur + u.subrange(i, u.len() as int)]
            + lines_of(rest),
    decreases u.len() - i,
{
    let w = u + seq!['\n'] + rest;
    assert(w.len() == u.len() + 1 + rest.len());
    if i == u.len() {
        assert(w[i] == '\n');
        assert(lines_acc(w, i, cur) == seq![cur] + lines_acc(w, i + 1, Seq::empty()));
        assert(u + seq!['\n'] =~= (u + seq!['\n']));
        assert((u + seq!['\n']) + rest =~= w);
        lemma_lines_shift(u + seq!['\n'], rest, 0, Seq::empty());
        assert(lines_acc(w, (u + seq!['\n']).len() as int, Seq::empty()) == lines_acc(
            rest,
            0,
            Seq::empty(),
        ));
        assert((u + seq!['\n']).len() as int == i + 1);
        assert(cur + u.subrange(i, u.len() as int) =~= cur);
    } else {
        assert(w[i] == u[i]);
        assert(u[i] != '\n');
        lemma_lines_consume(u, rest, i + 1, cur.push(u[i]));
        assert(cur.push(u[i]) + u.subrange(i + 1, u.len() as int) =~= cur + u.subrange(
            i,
            u.len() as int,
        ));
    }
}

// ---------------------------------------------------------------------------
// What one rendered line parses back to.
// ---------------------------------------------------------------------------

/// `skip_word` runs to `e` when everything before `e` is a word character
/// and `e` holds none.
proof fn lemma_skip_word_stops(u: Seq<char>, j: int, e: int)
    requires
        0 <= j <= e <= u.len(),
        forall|m: int| j <= m < e ==> is_word_char(#[trigger] u[m]),
        e == u.len() || !is_word_char(u[e]),
    ensures
        skip_word(u, j) == e,
    decreases e - j,
{
    if j < e {
        lemma_skip_word_stops(u, j + 1, e);
    }
}

/// Scanning the quoted rendering of a renderable value unescapes it back
/// to the value and stops right after the closing quote.
proof fn lemma_scan_escaped(v: Seq<char>, i: int, pre: Seq<char>, acc: Seq<char>)
    requires
        renderable_value(v),
        0 <= i <= v.len(),
    ensures
        ({
            let w = pre + json_escaped_from(v, i) + seq!['"'];
            scan_quoted(w, pre.len() as int, '"', acc) == Ok::<_, ParseIssueKind>(
                (acc + v.subrange(i, v.len() as int), w.len() as int),
            )
        }),
    decreases v.len() - i,
{
    let w = pre + json_escaped_from(v, i) + seq!['"'];
    let pos = pre.len() as int;
    if i == v.len() {
        assert(json_escaped_from(v, i) =~= Seq::<char>::empty());
        assert(w =~= pre + seq!['"']);
        assert(w[pos] == '"');
        assert(w.len() == pre.len() + 1);
        assert(acc + v.subrange(i, v.len() as int) =~= acc);
    } else {
        let c = v[i];
        let e = json_escape_char(c);
        let rest = json_escaped_from(v, i + 1);
        assert(json_escaped_from(v, i) == e + rest);
        assert(c != '\\' && (c as u32) >= 0x20);
        if c == '"' {
            assert(e == seq!['\\', '"']);
            assert(w[pos] == '\\');
            assert(w[pos + 1] == '"');
            assert(pos + 1 < w.len());
            lemma_scan_escaped(v, i + 1, pre + e, acc.push('"'));
            let w2 = (pre + e) + json_escaped_from(v, i + 1) + seq!['"'];
            assert(w2 =~= w);
            assert((pre + e).len() as int == pos + 2);
            assert(scan_quoted(w, pos, '"', acc) == scan_quoted(w, pos + 2, '"', acc.push('"')));
            assert(acc.push(c) + v.subrange(i + 1, v.len() as int) =~= acc + v.subrange(
                i,
                v.len() as int,
            ));
        } else {
            assert(e == seq![c]);
            assert(w[pos] == c);
            assert(c != '"');
            lemma_scan_escaped(v, i + 1, pre + e, acc.push(c));
            let w2 = (pre + e) + json_escaped_from(v, i + 1) + seq!['"'];
            assert(w2 =~= w);
            assert((pre + e).len() as int == pos + 1);
            assert(scan_quoted(w, pos, '"', acc) == scan_quoted(w, pos + 1, '"', acc.push(c)));
            assert(acc.push(c) + v.subrange(i + 1, v.len() as int) =~= acc + v.subrange(
                i,
                v.len() as int,
            ));
        }
    }
}

/// Where each piece of a rendered line sits.
proof fn lemma_line_shape(k: Seq<char>, v: Seq<char>)
    ensures
        line_text(k, v).len() == k.len() + 1 + json_quoted(v).len(),
        json_quoted(v).len() >= 2,
        forall|m: int| 0 <= m < k.len() ==> line_text(k, v)[m] == k[m],
        line_text(k, v)[k.len() as int] == '=',
        forall|m: int|
            0 <= m < json_quoted(v).len() ==> line_text(k, v)[k.len() + 1 + m] == json_quoted(
                v,
            )[m],
        json_quoted(v)[0] == '"',
        json_quoted(v)[json_quoted(v).len() - 1] == '"',
{
    let q = json_quoted(v);
    assert(q[0] == '"');
    assert(q[q.len() - 1] == '"');
}

/// Parsing the quoted rendering of a renderable value yields the value.
proof fn lemma_value_parses(v: Seq<char>)
    requires
        renderable_value(v),
    ensures
        parse_value(json_quoted(v)) == Ok::<_, ParseIssueKind>(Some(v)),
{
    let q = json_quoted(v);
    lemma_line_shape(Seq::empty(), v);
    assert(q[0] == '"');
    assert(!is_space_char('"'));
    assert(skip_spaces(q, 0) == 0);
    lemma_scan_escaped(v, 0, seq!['"'], Seq::empty());
    let w3 = seq!['"'] + json_escaped_from(v, 0) + seq!['"'];
    assert(w3 =~= q);
    assert(seq!['"'].len() as int == 1);
    assert(scan_quoted(q, 1, '"', Seq::empty()) == Ok::<_, ParseIssueKind>(
        (Seq::empty() + v.subrange(0, v.len() as int), q.len() as int),
    ));
    assert(Seq::empty() + v.subrange(0, v.len() as int) =~= v);
    assert(skip_spaces(q, q.len() as int) == q.len() as int);
    assert(v.len() > 0);
}

/// A rendered line is already trimmed.
proof fn lemma_line_trimmed(k: Seq<char>, v: Seq<char>)
    requires
        renderable_key(k),
    ensures
        trimmed(line_text(k, v)) == line_text(k, v),
{
    let w = line_text(k, v);
    lemma_line_shape(k, v);
    assert(w[0] == k[0]);
    assert(is_word_char(k[0]));
    assert(!is_space_char(k[0]));
    assert(skip_spaces(w, 0) == 0);
    let q = json_quoted(v);
    assert(w[w.len() - 1] == q[q.len() - 1]) by {
        assert(w[k.len() + 1 + (q.len() - 1)] == q[q.len() - 1]);
    }
    assert(!is_space_char('"'));
    assert(rskip_spaces(w, w.len() as int) == w.len() as int);
    assert(w.subrange(0, w.len() as int) =~= w);
}

/// No `export` keyword is stripped from a rendered line: the character
/// after any such prefix is a word character or the separator.
proof fn lemma_line_no_export(k: Seq<char>, v: Seq<char>)
    requires
        renderable_key(k),
    ensures
        !(has_prefix(line_text(k, v), export_kw()) && line_text(k, v).len() > export_kw().len()
            && is_space_char(line_text(k, v)[export_kw().len() as int])),
{
    let w = line_text(k, v);
    let kl = k.len() as int;
    lemma_line_shape(k, v);
    if has_prefix(w, export_kw()) && w.len() > export_kw().len() && is_space_char(
        w[export_kw().len() as int],
    ) {
        if k.len() > 6 {
            assert(w[6] == k[6]);
            assert(is_word_char(k[6]));
            assert(!is_space_char(k[6]));
        } else if k.len() == 6 {
            assert(w[6] == '=');
            assert(!is_space_char('='));
        } else {
            assert(w.subrange(0, export_kw().len() as int)[kl] == w[kl]);
            assert(export_kw()[kl] == w[kl]);
            assert(w[kl] == '=');
            assert(export_kw()[kl] != '=') by {
                if kl == 0 {
                    assert(export_kw()[0] == 'e');
                } else if kl == 1 {
                    assert(export_kw()[1] == 'x');
                } else if kl == 2 {
                    assert(export_kw()[2] == 'p');
                } else if kl == 3 {
                    assert(export_kw()[3] == 'o');
                } else if kl == 4 {
                    assert(export_kw()[4] == 'r');
                } else {
                    assert(export_kw()[5] == 't');
                }
            }
        }
    }
}

/// A rendered line classifies as the declaration of exactly its key and
/// value.
proof fn lemma_classify_rendered(k: Seq<char>, v: Seq<char>)
    requires
        renderable_key(k),
        renderable_value(v),
    ensures
        classify_line(line_text(k, v)) == LineView::DeclLine(k, Some(v)),
{
    let w = line_text(k, v);
    let q = json_quoted(v);
    let kl = k.len() as int;
    lemma_line_shape(k, v);
    lemma_line_trimmed(k, v);
    assert(w[0] == k[0]);
    assert(is_word_char(k[0]));
    assert(k[0] != '#');
    assert(w.len() > 0);
    assert(classify_line(w) == classify_decl(w));

    lemma_line_no_export(k, v);
    assert(!is_word_char('='));
    lemma_skip_word_stops(w, 0, kl);
    assert(skip_word(w, 0) == kl);
    assert(kl > 0);
    assert(!is_space_char('='));
    assert(skip_spaces(w, kl) == kl);

    let vp = w.subrange(kl + 1, w.len() as int);
    assert(vp =~= q);
    lemma_value_parses(v);
    assert(w.subrange(0, kl) =~= k);
}

// ---------------------------------------------------------------------------
// The round trip itself.
// ---------------------------------------------------------------------------

/// The lines of the rendered pairs from `i` on: one line per pair, and an
/// empty final line after the last newline.
proof fn lemma_rendered_lines(pairs: Seq<(Seq<char>, Seq<char>)>, i: int)
    requires
        renderable_pairs(pairs),
        0 <= i <= pairs.len(),
    ensures
        lines_of(lines_rendered_from(Seq::empty(), pairs, i)) == Seq::new(
            (pairs.len() - i) as nat,
            |m: int| line_text(pairs[i + m].0, pairs[i + m].1),
        ) + seq![Seq::<char>::empty()],
    decreases pairs.len() - i,
{
    let r = lines_rendered_from(Seq::<char>::empty(), pairs, i);
    if i == pairs.len() {
        assert(r =~= Seq::<char>::empty());
        assert(lines_acc(Seq::<char>::empty(), 0, Seq::<char>::empty()) == seq![
            Seq::<char>::empty(),
        ]);
        assert(Seq::new(0, |m: int| line_text(pairs[i + m].0, pairs[i + m].1)) + seq![
            Seq::<char>::empty(),
        ] =~= seq![Seq::<char>::empty()]);
    } else {
        lemma_rendered_lines(pairs, i + 1);
        let u = line_text(pairs[i].0, pairs[i].1);
        let rest = lines_rendered_from(Seq::<char>::empty(), pairs, i + 1);
        assert(rendered_line(Seq::<char>::empty(), pairs[i].0, pairs[i].1) =~= u + seq!['\n']);
        assert(r =~= u + seq!['\n'] + rest);
        lemma_line_no_newline(pairs[i].0, pairs[i].1);
        lemma_lines_consume(u, rest, 0, Seq::empty());
        assert(Seq::<char>::empty() + u.subrange(0, u.len() as int) =~= u);
        assert(lines_of(r) == seq![u] + lines_of(rest));
        assert(seq![u] + (Seq::new((pairs.len() - i - 1) as nat, |m: int| line_text(
            pairs[i + 1 + m].0,
            pairs[i + 1 + m].1,
        )) + seq![Seq::<char>::empty()]) =~= Seq::new((pairs.len() - i) as nat, |m: int| line_text(
            pairs[i + m].0,
            pairs[i + m].1,
        )) + seq![Seq::<char>::empty()]);
    }
}

/// Folding the rendered lines back through the parser rebuilds exactly
/// the pairs' entries, appended to the accumulator.
proof fn lemma_parse_rendered_lines(
    ls: Seq<Seq<char>>,
    pairs: Seq<(Seq<char>, Seq<char>)>,
    j: int,
    acc: Seq<EntryView>,
)
    requires
        renderable_pairs(pairs),
        ls.len() == pairs.len() + 1,
        forall|m: int|
            0 <= m < pairs.len() ==> ls[m] == line_text((#[trigger] pairs[m]).0, pairs[m].1),
        ls[pairs.len() as int].len() == 0,
        0 <= j <= pairs.len(),
        forall|m: int, x: int|
            j <= m < pairs.len() && 0 <= x < acc.len() ==> (#[trigger] acc[x]).key != (
            #[trigger] pairs[m]).0,
    ensures
        parse_from(ls, j, None, acc) == Ok::<_, IssueView>(
            acc + Seq::new((pairs.len() - j) as nat, |m: int| entry_of_pair(pairs[j + m])),
        ),
    decreases ls.len() - j,
{
    if j == pairs.len() {
        let empty_line = ls[j];
        assert(skip_spaces(empty_line, 0) == 0);
        assert(trimmed(empty_line).len() == 0);
        assert(classify_line(empty_line) == LineView::Blank);
        assert(parse_from(ls, j, None, acc) == parse_from(ls, j + 1, None, acc));
        assert(acc + Seq::new(0, |m: int| entry_of_pair(pairs[j + m])) =~= acc);
    } else {
        lemma_classify_rendered(pairs[j].0, pairs[j].1);
        assert(classify_line(ls[j]) == LineView::DeclLine(pairs[j].0, Some(pairs[j].1)));
        let e = entry_of_pair(pairs[j]);
        crate::parser::lemma_find_entry_props(acc, e.key, 0);
        assert(find_entry_from(acc, e.key, 0) == -1) by {
            let r = find_entry_from(acc, e.key, 0);
            if r != -1 {
                assert(acc[r].key == pairs[j].0);
            }
        }
        assert(upsert_entry(acc, e) == acc.push(e));
        assert forall|m: int, x: int|
            j + 1 <= m < pairs.len() && 0 <= x < acc.push(e).len() implies (#[trigger] acc.push(
            e,
        )[x]).key != (#[trigger] pairs[m]).0 by {
            if x < acc.len() {
                assert(acc.push(e)[x] == acc[x]);
            } else {
                assert(acc.push(e)[x] == e);
                assert(pairs[j].0 != pairs[m].0);
            }
        }
        lemma_parse_rendered_lines(ls, pairs, j + 1, acc.push(e));
        assert(acc.push(e) + Seq::new((pairs.len() - j - 1) as nat, |m: int| entry_of_pair(
            pairs[j + 1 + m],
        )) =~= acc + Seq::new((pairs.len() - j) as nat, |m: int| entry_of_pair(pairs[j + m])));
    }
}

/// Every character the key scan accepts is a word character.
proof fn lemma_skip_word_range(u: Seq<char>, j: int)
    ensures
        forall|m: int| j <= m < skip_word(u, j) ==> is_word_char(#[trigger] u[m]),
    decreases u.len() - j,
{
    if 0 <= j < u.len() && is_word_char(u[j]) {
        lemma_skip_word_range(u, j + 1);
    }
}

/// A line that classifies as a declaration has a renderable key: one or
/// more word characters.
proof fn lemma_classify_key(l: Seq<char>)
    ensures
        classify_line(l) is DeclLine ==> renderable_key(classify_line(l)->DeclLine_0),
{
    let t = trimmed(l);
    if t.len() == 0 {
        assert(classify_line(l) == LineView::Blank);
    } else if t[0] == '#' {
        assert(classify_line(l) == crate::parser::classify_comment(t));
        assert(!(crate::parser::classify_comment(t) matches LineView::DeclLine(_k2, _v2)));
    } else {
        let u = if has_prefix(t, export_kw()) && t.len() > export_kw().len() && is_space_char(
            t[export_kw().len() as int],
        ) {
            trimmed(t.subrange(export_kw().len() as int, t.len() as int))
        } else {
            t
        };
        let ke = skip_word(u, 0);
        crate::expand::lemma_skip_word_ge(u, 0);
        if ke > 0 {
            lemma_skip_word_range(u, 0);
            crate::expand::lemma_skip_word_le(u, 0);
            let k = u.subrange(0, ke);
            assert(forall|m: int| 0 <= m < ke ==> is_word_char(#[trigger] k[m]));
            assert(renderable_key(k));
            let sp = skip_spaces(u, ke);
            if sp < u.len() && (u[sp] == '=' || u[sp] == ':') {
                match parse_value(u.subrange(sp + 1, u.len() as int)) {
                    Ok(val) => {
                        assert(classify_decl(t) == LineView::DeclLine(k, val));
                    },
                    Err(_) => {
                        assert(classify_decl(t) is BadLine);
                    },
                }
            } else {
                assert(classify_decl(t) is BadLine);
            }
        } else {
            assert(classify_decl(t) is BadLine);
        }
        assert(classify_line(l) == classify_decl(t));
    }
}

/// All keys parsing accumulates are renderable.
proof fn lemma_parse_from_keys(
    lines: Seq<Seq<char>>,
    i: int,
    pending: Option<crate::parser::SecretView>,
    acc: Seq<EntryView>,
)
    requires
        forall|x: int| 0 <= x < acc.len() ==> renderable_key((#[trigger] acc[x]).key),
    ensures
        parse_from(lines, i, pending, acc) matches Ok(es) ==> forall|x: int|
            0 <= x < es.len() ==> renderable_key((#[trigger] es[x]).key),
    decreases lines.len() - i,
{
    if 0 <= i < lines.len() {
        match classify_line(lines[i]) {
            LineView::Blank => {
                lemma_parse_from_keys(lines, i + 1, pending, acc);
            },
            LineView::PlainComment => {
                lemma_parse_from_keys(lines, i + 1, pending, acc);
            },
            LineView::DirectiveLine(d) => {
                lemma_parse_from_keys(lines, i + 1, Some(d), acc);
            },
            LineView::DeclLine(k, val) => {
                lemma_classify_key(lines[i]);
                let e = EntryView { key: k, value: val, secret: pending };
                let acc2 = upsert_entry(acc, e);
                crate::parser::lemma_find_entry_props(acc, e.key, 0);
                assert forall|x: int| 0 <= x < acc2.len() implies renderable_key((#[trigger]
                acc2[x]).key) by {
                    let j = find_entry_from(acc, e.key, 0);
                    if j < 0 {
                        if x < acc.len() {
                            assert(acc2[x] == acc[x]);
                        } else {
                            assert(acc2[x] == e);
                        }
                    } else {
                        if x != j {
                            assert(acc2[x] == acc[x]);
                        } else {
                            assert(acc2[x] == e);
                        }
                    }
                }
                lemma_parse_from_keys(lines, i + 1, None, acc2);
            },
            LineView::BadLine(_) => {},
        }
    }
}

/// Rendering pairs in `.env` form and parsing the text back reconstructs
/// exactly those pairs, in order, as entries with those default values
/// and no directives — idempotence, modulo the directive metadata the
/// rendering never carries.
pub proof fn lemma_env_round_trip(pairs: Seq<(Seq<char>, Seq<char>)>)
    requires
        renderable_pairs(pairs),
    ensures
        spec_parse(env_rendered(pairs)) == Ok::<_, IssueView>(
            pairs.map_values(|p: (Seq<char>, Seq<char>)| entry_of_pair(p)),
        ),
{
    lemma_rendered_lines(pairs, 0);
    let ls = lines_of(env_rendered(pairs));
    assert(ls.len() == pairs.len() + 1);
    assert(forall|m: int|
        0 <= m < pairs.len() ==> ls[m] == line_text((#[trigger] pairs[m]).0, pairs[m].1));
    assert(ls[pairs.len() as int].len() == 0);
    lemma_parse_rendered_lines(ls, pairs, 0, Seq::empty());
    assert(Seq::empty() + Seq::new((pairs.len() - 0) as nat, |m: int| entry_of_pair(pairs[0 + m]))
        =~= pairs.map_values(|p: (Seq<char>, Seq<char>)| entry_of_pair(p)));
}

/// Parsing, rendering the resulting entries in `.env` form, and parsing
/// the rendered text again reconstructs the same (key, value) pairs —
/// idempotence, modulo the directive metadata the rendering drops. The
/// entries must all carry a value, and the values must be free of
/// backslashes and control characters: such characters survive rendering
/// only in JSON-escaped form, which a re-parse keeps verbatim.
pub proof fn lemma_parse_render_reparse(s: Seq<char>)
    requires
        spec_parse(s) is Ok,
        forall|x: int|
            0 <= x < spec_parse(s)->Ok_0.len() ==> (#[trigger] spec_parse(s)->Ok_0[x]).value
                is Some,
        forall|x: int|
            0 <= x < spec_parse(s)->Ok_0.len() ==> renderable_value(
                (#[trigger] spec_parse(s)->Ok_0[x]).value->Some_0,
            ),
    ensures
        ({
            let es = spec_parse(s)->Ok_0;
            let pairs = es.map_values(|e: EntryView| (e.key, e.value->Some_0));
            spec_parse(env_rendered(pairs)) == Ok::<_, IssueView>(
                es.map_values(|e: EntryView| EntryView { key: e.key, value: e.value, secret: None }),
            )
        }),
{
    let es = spec_parse(s)->Ok_0;
    let pairs = es.map_values(|e: EntryView| (e.key, e.value->Some_0));
    crate::parser::lemma_parse_keys_unique(s);
    lemma_parse_from_keys(lines_of(s), 0, None, Seq::empty());
    assert(renderable_pairs(pairs)) by {
        assert forall|i: int|
            0 <= i < pairs.len() implies renderable_key((#[trigger] pairs[i]).0)
            && renderable_value(pairs[i].1) by {
            assert(pairs[i] == (es[i].key, es[i].value->Some_0));
        }
        assert forall|i: int, j: int| 0 <= i < j < pairs.len() implies pairs[i].0 != pairs[
            j].0 by {
            assert(pairs[i] == (es[i].key, es[i].value->Some_0));
            assert(pairs[j] == (es[j].key, es[j].value->Some_0));
            assert(es[i].key != es[j].key);
        }
    }
    lemma_env_round_trip(pairs);
    assert(pairs.map_values(|p: (Seq<char>, Seq<char>)| entry_of_pair(p)) =~= es.map_values(
        |e: EntryView| EntryView { key: e.key, value: e.value, secret: None },
    )) by {
        let mapped_a = pairs.map_values(|p: (Seq<char>, Seq<char>)| entry_of_pair(p));
        let mapped_b = es.map_values(
            |e: EntryView| EntryView { key: e.key, value: e.value, secret: None },
        );
        assert forall|i: int| #![trigger es[i]] 0 <= i < pairs.len() implies mapped_a[i]
            == mapped_b[i] by {
            assert(pairs[i] == (es[i].key, es[i].value->Some_0));
            assert(es[i].value is Some);
        }
    }
}

} // verus!
