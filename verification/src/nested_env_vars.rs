//! Substitution of `${VAR}` and `${VAR:-default}` references inside a
//! string, against an explicit snapshot of variables. A reference to an
//! unset variable without a default stays as written; a default is taken
//! when the variable is unset or empty; text without a closing brace stays
//! literal.

use vstd::prelude::*;

verus! {

/// The first value carried for `name` in the snapshot.
pub open spec fn lookup_var(vars: Seq<(String, String)>, name: Seq<char>) -> Option<Seq<char>>
    decreases vars.len(),
{
    if vars.len() == 0 {
        None
    } else if vars[0].0@ == name {
        Some(vars[0].1@)
    } else {
        lookup_var(vars.drop_first(), name)
    }
}

/// The position of the first `c` at or after `pos`, or the length when
/// there is none.
pub open spec fn find_char(s: Seq<char>, pos: int, c: char) -> int
    decreases s.len() - pos,
{
    if pos < 0 || pos >= s.len() {
        s.len() as int
    } else if s[pos] == c {
        pos
    } else {
        find_char(s, pos + 1, c)
    }
}

/// The position of the first `:-` inside `s`, or the length when there is
/// none.
pub open spec fn find_colon_dash(s: Seq<char>, pos: int) -> int
    decreases s.len() - pos,
{
    if pos < 0 || pos + 1 >= s.len() {
        s.len() as int
    } else if s[pos] == ':' && s[pos + 1] == '-' {
        pos
    } else {
        find_colon_dash(s, pos + 1)
    }
}

/// What one variable reference expands to: the value when the variable is
/// set (and non-empty, when a default exists), the default when not, and
/// the reference itself when the variable is unset and no default was
/// given.
pub open spec fn expand_ref(expr: Seq<char>, vars: Seq<(String, String)>) -> Seq<char> {
    let ci = find_colon_dash(expr, 0);
    if ci < expr.len() {
        let name = expr.subrange(0, ci);
        let def = expr.skip(ci + 2);
        match lookup_var(vars, name) {
            Some(val) => if val.len() > 0 {
                val
            } else {
                def
            },
            None => def,
        }
    } else {
        match lookup_var(vars, expr) {
            Some(val) => val,
            None => "${"@ + expr + "}"@,
        }
    }
}

/// The expansion of a whole string.
pub open spec fn spec_expand(s: Seq<char>, vars: Seq<(String, String)>) -> Seq<char>
    decreases s.len(),
    via spec_expand_dec
{
    if s.len() == 0 {
        s
    } else if s.len() >= 2 && s[0] == '$' && s[1] == '{' {
        let e = find_char(s, 2, '}');
        if e == s.len() {
            s
        } else {
            expand_ref(s.subrange(2, e), vars) + spec_expand(s.skip(e + 1), vars)
        }
    } else {
        seq![s[0]] + spec_expand(s.skip(1), vars)
    }
}

#[via_fn]
proof fn spec_expand_dec(s: Seq<char>, vars: Seq<(String, String)>) {
    if s.len() >= 2 && s[0] == '$' && s[1] == '{' {
        lemma_find_char(s, 2, '}');
    }
}

/// A found character lies at or after where the search began, inside the
/// string unless absent, and is the character searched for.
pub proof fn lemma_find_char(s: Seq<char>, pos: int, c: char)
    ensures
        find_char(s, pos, c) >= pos || find_char(s, pos, c) == s.len(),
        find_char(s, pos, c) <= s.len(),
        0 <= pos <= s.len() && find_char(s, pos, c) < s.len() ==> s[find_char(s, pos, c)] == c,
    decreases s.len() - pos,
{
    if 0 <= pos < s.len() && s[pos] != c {
        lemma_find_char(s, pos + 1, c);
    }
}

/// The found `:-` bounds.
pub proof fn lemma_find_colon_dash(s: Seq<char>, pos: int)
    ensures
        find_colon_dash(s, pos) >= pos || find_colon_dash(s, pos) == s.len(),
        find_colon_dash(s, pos) <= s.len(),
        find_colon_dash(s, pos) < s.len() ==> find_colon_dash(s, pos) + 2 <= s.len() && s[
            find_colon_dash(s, pos)] == ':' && s[find_colon_dash(s, pos) + 1] == '-',
    decreases s.len() - pos,
{
    if 0 <= pos && pos + 1 < s.len() && !(s[pos] == ':' && s[pos + 1] == '-') {
        lemma_find_colon_dash(s, pos + 1);
    }
}

/// Finds the first `c` at or after `pos`.
fn scan_char(cs: &Vec<char>, pos: usize, c: char) -> (r: usize)
    requires
        pos <= cs@.len(),
    ensures
        r == find_char(cs@, pos as int, c),
        pos <= r <= cs@.len(),
    decreases cs@.len() - pos,
{
    proof {
        lemma_find_char(cs@, pos as int, c);
    }
    if pos >= cs.len() {
        cs.len()
    } else if cs[pos] == c {
        pos
    } else {
        scan_char(cs, pos + 1, c)
    }
}

/// Finds the first `:-` at or after `pos`.
fn scan_colon_dash(cs: &Vec<char>, pos: usize) -> (r: usize)
    requires
        pos <= cs@.len(),
    ensures
        r == find_colon_dash(cs@, pos as int),
        pos <= r <= cs@.len(),
    decreases cs@.len() - pos,
{
    proof {
        lemma_find_colon_dash(cs@, pos as int);
    }
    if pos >= cs.len() {
        cs.len()
    } else if pos + 1 >= cs.len() {
        cs.len()
    } else if cs[pos] == ':' && cs[pos + 1] == '-' {
        pos
    } else {
        scan_colon_dash(cs, pos + 1)
    }
}

/// Looks a variable name up in the snapshot.
fn get_var<'a>(vars: &'a Vec<(String, String)>, name: &str) -> (r: Option<&'a String>)
    ensures
        match r {
            Some(v) => lookup_var(vars@, name@) == Some(v@),
            None => lookup_var(vars@, name@) is None,
        },
{
    let owned = name.to_owned();
    let n = vars.len();
    let mut i: usize = 0;
    proof {
        assert(vars@.skip(0) =~= vars@);
    }
    while i < n
        invariant
            i <= n,
            n == vars@.len(),
            owned@ == name@,
            lookup_var(vars@.skip(i as int), name@) == lookup_var(vars@, name@),
        decreases n - i,
    {
        proof {
            assert(vars@.skip(i as int).drop_first() =~= vars@.skip(i as int + 1));
            assert(vars@.skip(i as int)[0] == vars@[i as int]);
        }
        if vars[i].0.eq(&owned) {
            return Some(&vars[i].1);
        }
        i += 1;
    }
    proof {
        assert(vars@.skip(n as int).len() == 0);
    }
    None
}

/// Expands every `${VAR}` and `${VAR:-default}` reference in `s` against
/// the snapshot `vars`, as `spec_expand` states.
pub fn expand_env_vars(s: &str, vars: &Vec<(String, String)>) -> (r: String)
    ensures
        r@ == spec_expand(s@, vars@),
{
    let cs = crate::path::str_chars(s);
    let n = cs.len();
    let mut out = String::new();
    let mut i: usize = 0;
    proof {
        assert(cs@.skip(0) =~= cs@);
    }
    while i < n
        invariant
            n == cs@.len(),
            cs@ == s@,
            i <= n,
            spec_expand(s@, vars@) == out@ + spec_expand(cs@.skip(i as int), vars@),
        decreases n - i,
    {
        let ghost rest = cs@.skip(i as int);
        proof {
            assert(rest[0] == cs@[i as int]);
            if rest.len() >= 2 {
                assert(rest[1] == cs@[i as int + 1]);
            }
        }
        if cs[i] == '$' && i + 1 < n && cs[i + 1] == '{' {
            let e = scan_char(&cs, i + 2, '}');
            proof {
                assert(find_char(rest, 2, '}') == e - i) by {
                    lemma_find_shift(cs@, i as int, 2, '}');
                }
            }
            if e == n {
                let tail = s.substring_char(i, n);
                out.append(tail);
                proof {
                    assert(rest =~= s@.subrange(i as int, n as int));
                    assert(spec_expand(rest, vars@) == rest);
                    assert(cs@.skip(n as int).len() == 0);
                    assert(out@ + spec_expand(cs@.skip(n as int), vars@) =~= out@);
                }
                i = n;
            } else {
                let ghost expr_g = rest.subrange(2, e - i);
                proof {
                    assert(expr_g =~= s@.subrange(i as int + 2, e as int));
                }
                let ci = scan_colon_dash(&cs, i + 2);
                proof {
                    lemma_find_char(cs@, i as int + 2, '}');
                    assert(cs@[e as int] == '}');
                    lemma_find_colon_dash(cs@, i as int + 2);
                    lemma_find_colon_dash_window(cs@, i as int + 2, e as int, 0);
                }
                if ci < e {
                    proof {
                        assert(cs@[ci as int] == ':' && cs@[ci as int + 1] == '-');
                        assert(ci + 2 <= e) by {
                            if ci + 1 == e {
                                assert(cs@[e as int] == '}');
                            }
                        }
                    }
                    let name = s.substring_char(i + 2, ci);
                    let def = s.substring_char(ci + 2, e);
                    proof {
                        assert(name@ =~= expr_g.subrange(0, ci - i - 2));
                        assert(def@ =~= expr_g.skip(ci - i - 2 + 2));
                    }
                    match get_var(vars, name) {
                        Some(val) => {
                            if !val.as_str().is_empty() {
                                out.append(val.as_str());
                            } else {
                                out.append(def);
                            }
                        },
                        None => {
                            out.append(def);
                        },
                    }
                } else {
                    let name = s.substring_char(i + 2, e);
                    proof {
                        assert(name@ =~= expr_g);
                    }
                    match get_var(vars, name) {
                        Some(val) => {
                            out.append(val.as_str());
                        },
                        None => {
                            out.append("${");
                            out.append(name);
                            out.append("}");
                            proof {
                                reveal_strlit("${");
                                reveal_strlit("}");
                            }
                        },
                    }
                }
                proof {
                    assert(cs@.skip(e as int + 1) =~= rest.skip(e - i + 1));
                }
                i = e + 1;
            }
        } else {
            let one = s.substring_char(i, i + 1);
            out.append(one);
            proof {
                assert(one@ =~= seq![cs@[i as int]]);
                assert(cs@.skip(i as int + 1) =~= rest.skip(1));
            }
            i += 1;
        }
    }
    proof {
        assert(cs@.skip(n as int).len() == 0);
        assert(spec_expand(cs@.skip(n as int), vars@) =~= Seq::<char>::empty());
        assert(out@ =~= out@ + spec_expand(cs@.skip(n as int), vars@));
    }
    out
}

/// Searching inside a suffix finds the same character, shifted.
proof fn lemma_find_shift(s: Seq<char>, base: int, off: int, c: char)
    requires
        0 <= base,
        0 <= off,
        base + off <= s.len(),
    ensures
        find_char(s.skip(base), off, c) == find_char(s, base + off, c) - base,
    decreases s.len() - base - off,
{
    let rest = s.skip(base);
    if base + off < s.len() {
        assert(rest[off] == s[base + off]);
        if s[base + off] != c {
            lemma_find_shift(s, base, off + 1, c);
        }
    }
}

/// Searching for `:-` inside the reference window agrees with searching in
/// the whole string: the window's search finds the shifted position when
/// the whole-string search lands a full pair inside the window, and nothing
/// otherwise.
proof fn lemma_find_colon_dash_window(s: Seq<char>, b: int, e: int, q: int)
    requires
        0 <= b <= b + q <= e <= s.len(),
    ensures
        ({
            let expr = s.subrange(b, e);
            let w = find_colon_dash(s, b + q);
            if w < e - 1 {
                find_colon_dash(expr, q) == w - b
            } else {
                find_colon_dash(expr, q) == expr.len()
            }
        }),
    decreases e - b - q,
{
    let expr = s.subrange(b, e);
    if b + q + 1 < e {
        assert(expr[q] == s[b + q]);
        assert(expr[q + 1] == s[b + q + 1]);
        if !(s[b + q] == ':' && s[b + q + 1] == '-') {
            lemma_find_colon_dash_window(s, b, e, q + 1);
        }
    } else {
        lemma_find_colon_dash_none(s, b + q, e);
    }
}

/// When the search starts at or past the last possible pair position of a
/// window, any pair it finds lies at the window edge or beyond.
proof fn lemma_find_colon_dash_none(s: Seq<char>, p: int, e: int)
    requires
        e - 1 <= p,
    ensures
        find_colon_dash(s, p) >= e - 1 || find_colon_dash(s, p) == s.len(),
    decreases s.len() - p,
{
    if 0 <= p && p + 1 < s.len() && !(s[p] == ':' && s[p + 1] == '-') {
        lemma_find_colon_dash_none(s, p + 1, e);
    }
}

} // verus!