//! The template engine: substitution of `${NAME}` placeholders in launch
//! argument strings, using a flat JSON object of variables.

use vstd::prelude::*;
use crate::json::{
    JsonValue, JVal, jget, int_chars, chars_of_str, string_from_chars, push_int, push_copied,
    jval_at,
};

verus! {

/// The first position at or after `i` holding a closing brace, or the end.
pub open spec fn brace_end(t: Seq<char>, i: int) -> int
    decreases t.len() - i,
{
    if i < 0 || i >= t.len() {
        t.len() as int
    } else if t[i] == '}' {
        i
    } else {
        brace_end(t, i + 1)
    }
}

/// The closing brace stands between `i` and the end.
pub proof fn lemma_brace_end(t: Seq<char>, i: int)
    requires
        0 <= i <= t.len(),
    ensures
        i <= brace_end(t, i) <= t.len(),
        brace_end(t, i) < t.len() ==> t[brace_end(t, i)] == '}',
        forall|j: int| i <= j < brace_end(t, i) ==> t[j] != '}',
    decreases t.len() - i,
{
    if i < t.len() && t[i] != '}' {
        lemma_brace_end(t, i + 1);
    }
}

/// The textual form of a variable's value: strings stand as they are,
/// numbers and booleans in their canonical decimal and `true`/`false`
/// forms; any other value has none.
pub open spec fn subst_val(v: JVal) -> Option<Seq<char>> {
    match v {
        JVal::Str(s) => Some(s),
        JVal::Int(n) => Some(int_chars(n)),
        JVal::NumLit(s) => Some(s),
        JVal::Bool(b) => Some(
            if b {
                seq!['t', 'r', 'u', 'e']
            } else {
                seq!['f', 'a', 'l', 's', 'e']
            },
        ),
        _ => None,
    }
}

/// One left-to-right pass over the template: each `${NAME}` whose name is
/// bound to a renderable value is replaced by that value's textual form;
/// any other placeholder, and a trailing `${` without its closing brace,
/// is kept verbatim. Replaced text is never scanned again.
pub open spec fn spec_subst(t: Seq<char>, env: JVal) -> Seq<char>
    decreases t.len(),
{
    if t.len() == 0 {
        t
    } else if t.len() >= 2 && t[0] == '$' && t[1] == '{' {
        let close = brace_end(t, 2);
        if close >= t.len() {
            t
        } else {
            let name = t.subrange(2, close);
            let rest = t.subrange(close + 1, t.len() as int);
            if 0 <= close < t.len() && close + 1 <= t.len() {
                match jget(env, name) {
                    Some(v) => match subst_val(v) {
                        Some(rep) => rep + spec_subst(rest, env),
                        None => t.subrange(0, close + 1) + spec_subst(rest, env),
                    },
                    None => t.subrange(0, close + 1) + spec_subst(rest, env),
                }
            } else {
                t
            }
        }
    } else {
        seq![t[0]] + spec_subst(t.subrange(1, t.len() as int), env)
    }
}

/// An absent name leaves the placeholder, with its delimiters, in place.
pub proof fn lemma_subst_skip(t: Seq<char>, env: JVal, close: int)
    requires
        t.len() >= 2,
        t[0] == '$',
        t[1] == '{',
        close == brace_end(t, 2),
        0 <= close < t.len(),
        match jget(env, t.subrange(2, close)) {
            Some(v) => subst_val(v) is None,
            None => true,
        },
    ensures
        spec_subst(t, env) == t.subrange(0, close + 1) + spec_subst(
            t.subrange(close + 1, t.len() as int),
            env,
        ),
{
}

/// Substitute `${NAME}` placeholders in `template` from the object `vars`.
/// Pure; never fails; unresolvable names are left untouched.
pub fn substitute(template: &str, vars: &JsonValue) -> (r: String)
    ensures
        r@ == spec_subst(template@, vars@),
{
    let t = chars_of_str(template);
    let n = t.len();
    let mut out: Vec<char> = Vec::new();
    let mut i: usize = 0;
    proof {
        assert(t@.subrange(0, n as int) =~= t@);
        assert(Seq::<char>::empty() + spec_subst(template@, vars@) =~= spec_subst(
            template@,
            vars@,
        ));
    }
    while i < n
        invariant
            n == t@.len(),
            t@ == template@,
            0 <= i <= n,
            spec_subst(template@, vars@) == out@ + spec_subst(
                t@.subrange(i as int, n as int),
                vars@,
            ),
        decreases n - i,
    {
        let ghost tail = t@.subrange(i as int, n as int);
        if t[i] == '$' && i + 1 < n && t[i + 1] == '{' {
            proof {
                lemma_brace_end(tail, 2);
            }
            // Find the closing brace of this placeholder.
            let mut close: usize = i + 2;
            while close < n && t[close] != '}'
                invariant
                    i + 2 <= close <= n,
                    n == t@.len(),
                    tail == t@.subrange(i as int, n as int),
                    i + 2 < n + 1,
                    brace_end(tail, 2) == brace_end(tail, close - i),
                decreases n - close,
            {
                proof {
                    assert(tail[close - i] == t@[close as int]);
                    assert(brace_end(tail, close - i) == brace_end(tail, close - i + 1));
                }
                close += 1;
            }
            proof {
                if close < n {
                    assert(tail[close - i] == t@[close as int]);
                }
                assert(brace_end(tail, close - i) == close - i);
                assert(brace_end(tail, 2) == close - i);
            }
            if close >= n {
                // No closing brace: the rest of the template is literal.
                let ghost outv = out@;
                push_tail(&mut out, &t, i);
                proof {
                    assert(spec_subst(tail, vars@) == tail);
                    assert(out@ == outv + tail);
                }
                i = n;
            } else {
                // `${` name `}`: look the name up.
                let mut namev: Vec<char> = Vec::new();
                let mut k: usize = i + 2;
                while k < close
                    invariant
                        i + 2 <= k <= close <= n,
                        n == t@.len(),
                        namev@ == t@.subrange(i + 2, k as int),
                    decreases close - k,
                {
                    let c = t[k];
                    namev.push(c);
                    proof {
                        assert(t@.subrange(i + 2, k + 1) =~= t@.subrange(i + 2, k as int).push(
                            t@[k as int],
                        ));
                    }
                    k += 1;
                }
                let name = string_from_chars(&namev);
                let ghost namespec = tail.subrange(2, close - i);
                proof {
                    assert(namespec =~= t@.subrange(i + 2, close as int));
                }
                let mut replaced = false;
                match vars.obj_get(name.as_str()) {
                    Some(v) => {
                        match v {
                            JsonValue::Str(sv) => {
                                let ghost outv = out@;
                                let sc = chars_of_str(sv.as_str());
                                push_copied(&mut out, &sc);
                                replaced = true;
                                proof {
                                    assert(subst_val(jval_at(*v)) == Some(sv@));
                                    assert(out@ == outv + sv@);
                                }
                            },
                            JsonValue::NumLit(sv) => {
                                let ghost outv = out@;
                                let sc = chars_of_str(sv.as_str());
                                push_copied(&mut out, &sc);
                                replaced = true;
                                proof {
                                    assert(subst_val(jval_at(*v)) == Some(sv@));
                                    assert(out@ == outv + sv@);
                                }
                            },
                            JsonValue::Int(nv) => {
                                let ghost outv = out@;
                                push_int(&mut out, *nv);
                                replaced = true;
                                proof {
                                    assert(subst_val(jval_at(*v)) == Some(
                                        int_chars(*nv as int),
                                    ));
                                }
                            },
                            JsonValue::Bool(bv) => {
                                let ghost outv = out@;
                                if *bv {
                                    out.push('t');
                                    out.push('r');
                                    out.push('u');
                                    out.push('e');
                                    proof {
                                        assert(out@ =~= outv + seq!['t', 'r', 'u', 'e']);
                                    }
                                } else {
                                    out.push('f');
                                    out.push('a');
                                    out.push('l');
                                    out.push('s');
                                    out.push('e');
                                    proof {
                                        assert(out@ =~= outv + seq!['f', 'a', 'l', 's', 'e']);
                                    }
                                }
                                replaced = true;
                            },
                            _ => {},
                        }
                    },
                    None => {},
                }
                if !replaced {
                    // Keep the placeholder verbatim, braces included.
                    let ghost outv = out@;
                    let mut k2: usize = i;
                    while k2 <= close
                        invariant
                            i <= k2 <= close + 1,
                            close < n == t@.len(),
                            out@ == outv + t@.subrange(i as int, k2 as int),
                        decreases close + 1 - k2,
                    {
                        let c = t[k2];
                        out.push(c);
                        proof {
                            assert(t@.subrange(i as int, k2 + 1) =~= t@.subrange(
                                i as int,
                                k2 as int,
                            ).push(t@[k2 as int]));
                        }
                        k2 += 1;
                    }
                    proof {
                        assert(tail.subrange(0, close - i + 1) =~= t@.subrange(
                            i as int,
                            close + 1,
                        ));
                    }
                }
                proof {
                    assert(tail.subrange(close - i + 1, tail.len() as int) =~= t@.subrange(
                        close + 1,
                        n as int,
                    ));
                }
                i = close + 1;
            }
        } else {
            let c = t[i];
            out.push(c);
            proof {
                assert(tail[0] == t@[i as int]);
                assert(tail.subrange(1, tail.len() as int) =~= t@.subrange(i + 1, n as int));
                assert(spec_subst(tail, vars@) == seq![tail[0]] + spec_subst(
                    t@.subrange(i + 1, n as int),
                    vars@,
                ));
            }
            i += 1;
        }
    }
    proof {
        assert(t@.subrange(n as int, n as int) =~= Seq::<char>::empty());
        assert(spec_subst(Seq::<char>::empty(), vars@) == Seq::<char>::empty());
        assert(out@ + Seq::<char>::empty() =~= out@);
    }
    string_from_chars(&out)
}

/// Append the characters of `t` from position `i` on.
fn push_tail(out: &mut Vec<char>, t: &Vec<char>, i: usize)
    requires
        i <= t@.len(),
    ensures
        final(out)@ == old(out)@ + t@.subrange(i as int, t@.len() as int),
{
    let mut k: usize = i;
    while k < t.len()
        invariant
            i <= k <= t@.len(),
            out@ == old(out)@ + t@.subrange(i as int, k as int),
        decreases t@.len() - k,
    {
        let c = t[k];
        out.push(c);
        proof {
            assert(t@.subrange(i as int, k + 1) =~= t@.subrange(i as int, k as int).push(
                t@[k as int],
            ));
        }
        k += 1;
    }
}

} // verus!
