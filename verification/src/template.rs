//! The closed-form label-template formatter.
//!
//! A template is an ordinary string in which `{tab_position}` stands for the
//! group's 1-indexed display position; `{{` and `}}` stand for literal
//! braces. Any other placeholder name is rejected, as are unclosed
//! placeholders and stray closing braces.

use vstd::prelude::*;
use crate::numbers::{dec_chars, dec_seq};

verus! {

/// Why a template failed to render.
#[derive(Clone, Copy, Debug, PartialEq, Eq, Structural)]
pub enum TemplateFault {
    /// A `{...}` group whose name is not the recognized placeholder.
    UnknownPlaceholder,
    /// A `{` with no closing `}` after it.
    UnclosedPlaceholder,
    /// A `}` that closes nothing and is not doubled.
    StrayClose,
}

/// The one recognized placeholder name.
pub open spec fn placeholder() -> Seq<char> {
    seq!['t', 'a', 'b', '_', 'p', 'o', 's', 'i', 't', 'i', 'o', 'n']
}

/// Whether some `}` occurs at or after index `i`.
pub open spec fn has_close_from(t: Seq<char>, i: int) -> bool
    decreases t.len() - i,
{
    if i < 0 || i >= t.len() {
        false
    } else if t[i] == '}' {
        true
    } else {
        has_close_from(t, i + 1)
    }
}

/// Renders the template suffix starting at `i`, substituting `v` for each
/// `{tab_position}` placeholder.
pub open spec fn render_from(t: Seq<char>, i: int, v: Seq<char>) -> Result<Seq<char>, TemplateFault>
    decreases t.len() - i,
{
    if i < 0 || i >= t.len() {
        Ok(Seq::empty())
    } else if t[i] == '{' {
        if i + 1 < t.len() && t[i + 1] == '{' {
            match render_from(t, i + 2, v) {
                Ok(r) => Ok(seq!['{'] + r),
                Err(e) => Err(e),
            }
        } else if i + 14 <= t.len() && t.subrange(i + 1, i + 13) == placeholder() && t[i + 13]
            == '}' {
            match render_from(t, i + 14, v) {
                Ok(r) => Ok(v + r),
                Err(e) => Err(e),
            }
        } else if has_close_from(t, i + 1) {
            Err(TemplateFault::UnknownPlaceholder)
        } else {
            Err(TemplateFault::UnclosedPlaceholder)
        }
    } else if t[i] == '}' {
        if i + 1 < t.len() && t[i + 1] == '}' {
            match render_from(t, i + 2, v) {
                Ok(r) => Ok(seq!['}'] + r),
                Err(e) => Err(e),
            }
        } else {
            Err(TemplateFault::StrayClose)
        }
    } else {
        match render_from(t, i + 1, v) {
            Ok(r) => Ok(seq![t[i]] + r),
            Err(e) => Err(e),
        }
    }
}

/// Renders a whole template against a substitution value.
pub open spec fn render_spec(t: Seq<char>, v: Seq<char>) -> Result<Seq<char>, TemplateFault> {
    render_from(t, 0, v)
}

/// A template that parses: rendering it succeeds for every substitution.
pub open spec fn template_ok(t: Seq<char>) -> bool {
    render_spec(t, Seq::empty()) is Ok
}

/// The rendering of a well-formed template, empty for a malformed one.
pub open spec fn render_ok(t: Seq<char>, v: Seq<char>) -> Seq<char> {
    match render_spec(t, v) {
        Ok(s) => s,
        Err(_) => Seq::empty(),
    }
}

/// Whether a template renders is decided by the template alone, never by
/// the substituted value; and a failing template fails the same way.
pub proof fn lemma_render_value_independent(t: Seq<char>, i: int, v1: Seq<char>, v2: Seq<char>)
    ensures
        match render_from(t, i, v1) {
            Ok(_) => render_from(t, i, v2) is Ok,
            Err(e) => render_from(t, i, v2) == Err::<Seq<char>, TemplateFault>(e),
        },
    decreases t.len() - i,
{
    if i < 0 || i >= t.len() {
    } else if t[i] == '{' {
        if i + 1 < t.len() && t[i + 1] == '{' {
            lemma_render_value_independent(t, i + 2, v1, v2);
        } else if i + 14 <= t.len() && t.subrange(i + 1, i + 13) == placeholder() && t[i + 13]
            == '}' {
            lemma_render_value_independent(t, i + 14, v1, v2);
        }
    } else if t[i] == '}' {
        if i + 1 < t.len() && t[i + 1] == '}' {
            lemma_render_value_independent(t, i + 2, v1, v2);
        }
    } else {
        lemma_render_value_independent(t, i + 1, v1, v2);
    }
}

/// Relies on `String::push`: appends exactly the given character.
#[verifier::external_body]
fn push_char(s: &mut String, c: char)
    ensures
        final(s)@ == old(s)@.push(c),
{
    s.push(c)
}

/// Whether a full `{tab_position}` placeholder starts at index `i`.
fn matches_placeholder(t: &str, i: usize, n: usize) -> (b: bool)
    requires
        n == t@.len(),
        i < n,
    ensures
        b == (i + 14 <= t@.len() && t@.subrange(i as int + 1, i as int + 13) == placeholder()
            && t@[i as int + 13] == '}'),
{
    if n - i < 14 {
        return false;
    }
    let name = "tab_position";
    proof {
        reveal_strlit("tab_position");
        assert(name@ =~= placeholder());
    }
    let mut j: usize = 0;
    while j < 12
        invariant
            n == t@.len(),
            i + 14 <= n,
            0 <= j <= 12,
            name@ == placeholder(),
            forall|k: int| 0 <= k < j ==> t@[i + 1 + k] == placeholder()[k],
        decreases 12 - j,
    {
        if t.get_char(i + 1 + j) != name.get_char(j) {
            proof {
                assert(t@.subrange(i as int + 1, i as int + 13)[j as int] != placeholder()[j as int]);
            }
            return false;
        }
        j += 1;
    }
    if t.get_char(i + 13) != '}' {
        return false;
    }
    proof {
        assert(t@.subrange(i as int + 1, i as int + 13) =~= placeholder());
    }
    true
}

/// Whether some `}` occurs at or after index `from`.
fn has_close(t: &str, from: usize, n: usize) -> (b: bool)
    requires
        n == t@.len(),
        from <= n,
    ensures
        b == has_close_from(t@, from as int),
{
    let mut j = from;
    while j < n
        invariant
            n == t@.len(),
            from <= j <= n,
            has_close_from(t@, from as int) == has_close_from(t@, j as int),
        decreases n - j,
    {
        if t.get_char(j) == '}' {
            return true;
        }
        j += 1;
    }
    false
}

/// Renders a template against the given (already 1-indexed) position value,
/// or reports exactly why the template is malformed.
pub fn render_template(t: &str, value: u64) -> (r: Result<String, TemplateFault>)
    ensures
        match r {
            Ok(s) => render_spec(t@, dec_seq(value as nat)) == Ok::<Seq<char>, TemplateFault>(s@),
            Err(e) => render_spec(t@, dec_seq(value as nat)) == Err::<Seq<char>, TemplateFault>(e),
        },
{
    let ghost v = dec_seq(value as nat);
    let digits: Vec<char> = dec_chars(value);
    let n = t.unicode_len();
    let mut out = String::new();
    let mut i: usize = 0;
    while i < n
        invariant
            n == t@.len(),
            0 <= i <= n,
            digits@ == v,
            v == dec_seq(value as nat),
            match render_from(t@, i as int, v) {
                Ok(r) => render_spec(t@, v) == Ok::<Seq<char>, TemplateFault>(out@ + r),
                Err(e) => render_spec(t@, v) == Err::<Seq<char>, TemplateFault>(e),
            },
        decreases n - i,
    {
        let c = t.get_char(i);
        if c == '{' {
            let two = i + 1 < n && t.get_char(i + 1) == '{';
            if two {
                let ghost rest = render_from(t@, i + 2, v);
                let ghost out_pre = out@;
                push_char(&mut out, '{');
                proof {
                    if let Ok(rr) = rest {
                        assert(out_pre + (seq!['{'] + rr) =~= out@ + rr);
                    }
                }
                i += 2;
            } else if matches_placeholder(t, i, n) {
                let ghost rest = render_from(t@, i + 14, v);
                let ghost out_pre = out@;
                let dn = digits.len();
                let mut j: usize = 0;
                while j < dn
                    invariant
                        dn == digits@.len(),
                        0 <= j <= dn,
                        out@ == out_pre + digits@.take(j as int),
                    decreases dn - j,
                {
                    push_char(&mut out, digits[j]);
                    proof {
                        assert(out@ =~= out_pre + digits@.take(j + 1));
                    }
                    j += 1;
                }
                proof {
                    assert(digits@.take(dn as int) =~= digits@);
                    if let Ok(rr) = rest {
                        assert(out_pre + (v + rr) =~= out@ + rr);
                    }
                }
                i += 14;
            } else {
                if has_close(t, i + 1, n) {
                    return Err(TemplateFault::UnknownPlaceholder);
                } else {
                    return Err(TemplateFault::UnclosedPlaceholder);
                }
            }
        } else if c == '}' {
            if i + 1 < n && t.get_char(i + 1) == '}' {
                let ghost rest = render_from(t@, i + 2, v);
                let ghost out_pre = out@;
                push_char(&mut out, '}');
                proof {
                    if let Ok(rr) = rest {
                        assert(out_pre + (seq!['}'] + rr) =~= out@ + rr);
                    }
                }
                i += 2;
            } else {
                return Err(TemplateFault::StrayClose);
            }
        } else {
            let ghost rest = render_from(t@, i + 1, v);
            let ghost out_pre = out@;
            push_char(&mut out, c);
            proof {
                if let Ok(rr) = rest {
                    assert(out_pre + (seq![t@[i as int]] + rr) =~= out@ + rr);
                }
            }
            i += 1;
        }
    }
    proof {
        assert(out@ + Seq::<char>::empty() =~= out@);
    }
    Ok(out)
}

} // verus!
