//! Placeholder expansion inside secret identifier patterns.
//!
//! A `$name` token (one or more word characters) is replaced by the value
//! bound to `name`; `$$` collapses to a literal `$` and never starts a
//! token; a `$` followed by anything else stays as it is. Replacement is
//! single-pass: substituted values are never rescanned. The first token
//! with no binding, left to right, fails the expansion with its name.

use vstd::prelude::*;

use crate::chars::chars_to_string;
use crate::chars::is_word_char;
use crate::chars::str_to_chars;
use crate::chars::subvec;
use crate::error::Error;
use crate::parser::skip_word;
use crate::parser::scan_word;

verus! {

/// The value bound to `name` among the pairs from `j` on; the first
/// binding wins.
pub open spec fn assoc_from(
    ph: Seq<(Seq<char>, Seq<char>)>,
    name: Seq<char>,
    j: int,
) -> Option<Seq<char>>
    decreases ph.len() - j,
{
    if j < 0 || j >= ph.len() {
        None
    } else if ph[j].0 == name {
        Some(ph[j].1)
    } else {
        assoc_from(ph, name, j + 1)
    }
}

/// The value bound to `name` among the pairs.
pub open spec fn assoc(ph: Seq<(Seq<char>, Seq<char>)>, name: Seq<char>) -> Option<Seq<char>> {
    assoc_from(ph, name, 0)
}

/// `skip_word` never moves backwards.
pub proof fn lemma_skip_word_ge(s: Seq<char>, j: int)
    ensures
        skip_word(s, j) >= j,
    decreases s.len() - j,
{
    if 0 <= j < s.len() && is_word_char(s[j]) {
        lemma_skip_word_ge(s, j + 1);
    }
}

/// `skip_word` never runs past the end.
pub proof fn lemma_skip_word_le(s: Seq<char>, j: int)
    requires
        j <= s.len(),
    ensures
        skip_word(s, j) <= s.len(),
    decreases s.len() - j,
{
    if 0 <= j < s.len() && is_word_char(s[j]) {
        lemma_skip_word_le(s, j + 1);
    }
}

/// Expands `p` from `i` on, with `acc` the output so far.
pub open spec fn expand_from(
    p: Seq<char>,
    i: int,
    ph: Seq<(Seq<char>, Seq<char>)>,
    acc: Seq<char>,
) -> Result<Seq<char>, Seq<char>>
    decreases p.len() - i,
    via expand_from_decreases
{
    if i < 0 || i >= p.len() {
        Ok(acc)
    } else if p[i] == '$' {
        if i + 1 < p.len() && p[i + 1] == '$' {
            expand_from(p, i + 2, ph, acc.push('$'))
        } else {
            let ne = skip_word(p, i + 1);
            if ne == i + 1 {
                expand_from(p, i + 1, ph, acc.push('$'))
            } else {
                let name = p.subrange(i + 1, ne);
                match assoc(ph, name) {
                    Some(v) => expand_from(p, ne, ph, acc + v),
                    None => Err(name),
                }
            }
        }
    } else {
        expand_from(p, i + 1, ph, acc.push(p[i]))
    }
}

#[via_fn]
proof fn expand_from_decreases(
    p: Seq<char>,
    i: int,
    ph: Seq<(Seq<char>, Seq<char>)>,
    acc: Seq<char>,
) {
    lemma_skip_word_ge(p, i + 1);
    if i + 1 <= p.len() {
        lemma_skip_word_le(p, i + 1);
    }
}

/// What expanding `p` with the bindings `ph` yields: the expanded text, or
/// the name of the first unbound placeholder.
pub open spec fn spec_expand(p: Seq<char>, ph: Seq<(Seq<char>, Seq<char>)>) -> Result<
    Seq<char>,
    Seq<char>,
> {
    expand_from(p, 0, ph, Seq::empty())
}

/// Looks `name` up among the placeholder pairs; the first binding wins.
fn lookup_pairs(ph: &Vec<(String, String)>, name: &String) -> (r: Option<String>)
    ensures
        match r {
            Some(v) => assoc(ph.deep_view(), name@) == Some(v@),
            None => assoc(ph.deep_view(), name@) == None::<Seq<char>>,
        },
{
    let ghost phv = ph.deep_view();
    let n = ph.len();
    for j in 0..n
        invariant
            n == ph@.len(),
            phv == ph.deep_view(),
            phv.len() == ph@.len(),
            assoc(phv, name@) == assoc_from(phv, name@, j as int),
    {
        proof {
            assert(phv[j as int] == ph@[j as int].deep_view());
        }
        if ph[j].0 == *name {
            return Some(ph[j].1.clone());
        }
    }
    None
}

/// Expands every `$name` token in `id` from the placeholder pairs, with
/// `$$` collapsing to a literal `$`. Fails with
/// [`Error::PlaceholderMissing`] naming the first token, left to right,
/// that has no binding.
pub fn replace_placeholders(id: &str, placeholders: &Vec<(String, String)>) -> (r: Result<
    String,
    Error,
>)
    ensures
        match r {
            Ok(s) => spec_expand(id@, placeholders.deep_view()) == Ok::<_, Seq<char>>(s@),
            Err(e) => {
                &&& e matches Error::PlaceholderMissing(n)
                &&& spec_expand(id@, placeholders.deep_view()) == Err::<Seq<char>, _>(n@)
            },
        },
{
    let cs = str_to_chars(id);
    let ghost phv = placeholders.deep_view();
    let mut out: Vec<char> = Vec::new();
    let mut i: usize = 0;
    while i < cs.len()
        invariant
            i <= cs@.len(),
            cs@ == id@,
            phv == placeholders.deep_view(),
            expand_from(cs@, i as int, phv, out@) == spec_expand(id@, phv),
        decreases cs@.len() - i,
    {
        let c = cs[i];
        if c == '$' {
            if i + 1 < cs.len() && cs[i + 1] == '$' {
                out.push('$');
                i += 2;
            } else {
                let ne = scan_word(&cs, i + 1);
                if ne == i + 1 {
                    out.push('$');
                    i += 1;
                } else {
                    let namev = subvec(&cs, i + 1, ne);
                    let name = chars_to_string(&namev);
                    match lookup_pairs(placeholders, &name) {
                        Some(val) => {
                            let ghost acc0 = out@;
                            let vc = str_to_chars(val.as_str());
                            let m = vc.len();
                            for k in 0..m
                                invariant
                                    m == vc@.len(),
                                    out@ == acc0 + vc@.take(k as int),
                            {
                                out.push(vc[k]);
                                proof {
                                    assert(out@ =~= acc0 + vc@.take(k + 1));
                                }
                            }
                            proof {
                                assert(out@ =~= acc0 + val@);
                            }
                            i = ne;
                        },
                        None => {
                            return Err(Error::PlaceholderMissing(name));
                        },
                    }
                }
            }
        } else {
            out.push(c);
            i += 1;
        }
    }
    Ok(chars_to_string(&out))
}

// ---------------------------------------------------------------------------
// The escape law.
// ---------------------------------------------------------------------------

/// Prefixing the accumulator prefixes the result.
proof fn lemma_expand_prefix(
    p: Seq<char>,
    i: int,
    ph: Seq<(Seq<char>, Seq<char>)>,
    pre: Seq<char>,
    acc: Seq<char>,
)
    ensures
        match expand_from(p, i, ph, acc) {
            Ok(x) => expand_from(p, i, ph, pre + acc) == Ok::<_, Seq<char>>(pre + x),
            Err(n) => expand_from(p, i, ph, pre + acc) == Err::<Seq<char>, _>(n),
        },
    decreases p.len() - i,
{
    if i < 0 || i >= p.len() {
    } else if p[i] == '$' {
        if i + 1 < p.len() && p[i + 1] == '$' {
            assert((pre + acc).push('$') =~= pre + acc.push('$'));
            lemma_expand_prefix(p, i + 2, ph, pre, acc.push('$'));
        } else {
            let ne = skip_word(p, i + 1);
            if ne == i + 1 {
                assert((pre + acc).push('$') =~= pre + acc.push('$'));
                lemma_expand_prefix(p, i + 1, ph, pre, acc.push('$'));
            } else {
                lemma_skip_word_ge(p, i + 1);
                lemma_skip_word_le(p, i + 1);
                let name = p.subrange(i + 1, ne);
                match assoc(ph, name) {
                    Some(v) => {
                        assert((pre + acc) + v =~= pre + (acc + v));
                        lemma_expand_prefix(p, ne, ph, pre, acc + v);
                    },
                    None => {},
                }
            }
        }
    } else {
        assert((pre + acc).push(p[i]) =~= pre + acc.push(p[i]));
        lemma_expand_prefix(p, i + 1, ph, pre, acc.push(p[i]));
    }
}

/// `skip_word` sees through a prefix.
proof fn lemma_skip_word_shift(u: Seq<char>, t: Seq<char>, j: int)
    requires
        j >= 0,
    ensures
        skip_word(u + t, u.len() + j) == u.len() + skip_word(t, j),
    decreases t.len() - j,
{
    if j < t.len() {
        assert((u + t)[u.len() + j] == t[j]);
        if is_word_char(t[j]) {
            lemma_skip_word_shift(u, t, j + 1);
        }
    }
}

/// Expansion from a position past a prefix ignores the prefix.
proof fn lemma_expand_shift(
    u: Seq<char>,
    t: Seq<char>,
    i: int,
    ph: Seq<(Seq<char>, Seq<char>)>,
    acc: Seq<char>,
)
    requires
        i >= 0,
    ensures
        expand_from(u + t, u.len() + i, ph, acc) == expand_from(t, i, ph, acc),
    decreases t.len() - i,
{
    let p = u + t;
    if i >= t.len() {
    } else {
        assert(p[u.len() + i] == t[i]);
        if t[i] == '$' {
            if i + 1 < t.len() && t[i + 1] == '$' {
                assert(p[u.len() + i + 1] == t[i + 1]);
                lemma_expand_shift(u, t, i + 2, ph, acc.push('$'));
            } else {
                if i + 1 < t.len() {
                    assert(p[u.len() + i + 1] == t[i + 1]);
                }
                lemma_skip_word_shift(u, t, i + 1);
                let ne = skip_word(t, i + 1);
                lemma_skip_word_ge(t, i + 1);
                lemma_skip_word_le(t, i + 1);
                if ne == i + 1 {
                    lemma_expand_shift(u, t, i + 1, ph, acc.push('$'));
                } else {
                    assert(p.subrange(u.len() + i + 1, u.len() + ne) =~= t.subrange(i + 1, ne));
                    let name = t.subrange(i + 1, ne);
                    match assoc(ph, name) {
                        Some(v) => {
                            lemma_expand_shift(u, t, ne, ph, acc + v);
                        },
                        None => {},
                    }
                }
            }
        } else {
            lemma_expand_shift(u, t, i + 1, ph, acc.push(t[i]));
        }
    }
}

/// A pattern that begins with `$$` expands to a literal `$` followed by
/// the expansion of the rest; the characters after the escape are never
/// read as a placeholder token of their own.
pub proof fn lemma_escaped_dollar(t: Seq<char>, ph: Seq<(Seq<char>, Seq<char>)>)
    ensures
        match spec_expand(t, ph) {
            Ok(x) => spec_expand(seq!['$', '$'] + t, ph) == Ok::<_, Seq<char>>(seq!['$'] + x),
            Err(n) => spec_expand(seq!['$', '$'] + t, ph) == Err::<Seq<char>, _>(n),
        },
{
    let esc = seq!['$', '$'] + t;
    assert(esc[0] == '$');
    assert(esc[1] == '$');
    assert(esc.len() == t.len() + 2);
    assert(spec_expand(esc, ph) == expand_from(esc, 2, ph, Seq::<char>::empty().push('$')));
    assert(Seq::<char>::empty().push('$') =~= seq!['$']);
    lemma_expand_shift(seq!['$', '$'], t, 0, ph, seq!['$']);
    assert(seq!['$'] + Seq::<char>::empty() =~= seq!['$']);
    lemma_expand_prefix(t, 0, ph, seq!['$'], Seq::empty());
}

} // verus!
