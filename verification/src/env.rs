//! Environment variables as data: a snapshot of `(name, value)` pairs, the
//! expansion of `${VAR}` / `$VAR` references in TOML text, and the mapping of
//! prefixed variable names to dotted key paths.

use vstd::prelude::*;
use crate::text::{chars_of, owned, push_char, push_str};
use crate::lexical::{is_ascii_alnum, alnum_char, lower_seq, upper_seq, lower_char, upper_char};

verus! {

/// The environment as a sequence of `(name, value)` pairs, in the order the
/// process reports them.
#[derive(Debug, Clone)]
pub struct EnvSnapshot {
    /// The variables, in order.
    pub vars: Vec<(String, String)>,
}

/// The value of the first variable named `name`, if any.
pub open spec fn env_lookup(vars: Seq<(String, String)>, name: Seq<char>) -> Option<Seq<char>>
    decreases vars.len(),
{
    if vars.len() == 0 {
        None
    } else if vars[0].0@ == name {
        Some(vars[0].1@)
    } else {
        env_lookup(vars.drop_first(), name)
    }
}

impl EnvSnapshot {
    /// A snapshot holding `vars`.
    pub fn new(vars: Vec<(String, String)>) -> (r: EnvSnapshot)
        ensures
            r.vars@ == vars@,
    {
        EnvSnapshot { vars }
    }

    /// An empty environment.
    pub fn empty() -> (r: EnvSnapshot)
        ensures
            r.vars@.len() == 0,
    {
        EnvSnapshot { vars: Vec::new() }
    }

    /// The value of the first variable named by the characters `name`.
    pub fn lookup_chars(&self, name: &[char]) -> (r: Option<&String>)
        ensures
            match r {
                Some(v) => env_lookup(self.vars@, name@) == Some(v@),
                None => env_lookup(self.vars@, name@) is None,
            },
    {
        let mut i: usize = 0;
        assert(self.vars@.skip(0) =~= self.vars@);
        while i < self.vars.len()
            invariant
                i <= self.vars@.len(),
                env_lookup(self.vars@, name@) == env_lookup(self.vars@.skip(i as int), name@),
            decreases self.vars@.len() - i,
        {
            let k = chars_of(self.vars[i].0.as_str());
            proof {
                assert(self.vars@.skip(i as int)[0] == self.vars@[i as int]);
                assert(self.vars@.skip(i as int).drop_first() =~= self.vars@.skip(i as int + 1));
            }
            if crate::lexical::chars_eq(k.as_slice(), name) {
                return Some(&self.vars[i].1);
            }
            i = i + 1;
        }
        None
    }

    /// The value of the first variable named `name`.
    pub fn get(&self, name: &str) -> (r: Option<&String>)
        ensures
            match r {
                Some(v) => env_lookup(self.vars@, name@) == Some(v@),
                None => env_lookup(self.vars@, name@) is None,
            },
    {
        let cs = chars_of(name);
        self.lookup_chars(cs.as_slice())
    }
}

// ---------------------------------------------------------------------------
// Expansion of ${VAR} and $VAR
// ---------------------------------------------------------------------------

/// A character that may appear in a bare `$VAR` name.
pub open spec fn is_name_char(c: char) -> bool {
    is_ascii_alnum(c) || c == '_'
}

/// The index of the first `c` in `s`, or `s.len()` when there is none.
pub open spec fn first_index(s: Seq<char>, c: char) -> nat
    decreases s.len(),
{
    if s.len() == 0 {
        0
    } else if s[0] == c {
        0
    } else {
        1 + first_index(s.drop_first(), c)
    }
}

/// The length of the run of name characters at the start of `s`.
pub open spec fn name_run(s: Seq<char>) -> nat
    decreases s.len(),
{
    if s.len() == 0 {
        0
    } else if is_name_char(s[0]) {
        1 + name_run(s.drop_first())
    } else {
        0
    }
}

/// The first index of `c` lies within `s`.
pub proof fn lemma_first_index_bound(s: Seq<char>, c: char)
    ensures
        first_index(s, c) <= s.len(),
        first_index(s, c) < s.len() ==> s[first_index(s, c) as int] == c,
        forall|j: int| 0 <= j < first_index(s, c) ==> s[j] != c,
    decreases s.len(),
{
    if s.len() > 0 && s[0] != c {
        lemma_first_index_bound(s.drop_first(), c);
        assert forall|j: int| 0 <= j < first_index(s, c) implies s[j] != c by {
            if j > 0 {
                assert(s[j] == s.drop_first()[j - 1]);
            }
        }
    }
}

/// The run of name characters lies within `s`.
pub proof fn lemma_name_run_bound(s: Seq<char>)
    ensures
        name_run(s) <= s.len(),
        name_run(s) < s.len() ==> !is_name_char(s[name_run(s) as int]),
        forall|j: int| 0 <= j < name_run(s) ==> is_name_char(s[j]),
    decreases s.len(),
{
    if s.len() > 0 && is_name_char(s[0]) {
        lemma_name_run_bound(s.drop_first());
        assert forall|j: int| 0 <= j < name_run(s) implies is_name_char(s[j]) by {
            if j > 0 {
                assert(s[j] == s.drop_first()[j - 1]);
            }
        }
    }
}

/// `s` with every `${NAME}` and `$NAME` whose variable is set replaced by its
/// value; references to unset variables, and a `$` not followed by a name,
/// are kept (an unterminated `${NAME` is kept as `${NAME}`).
pub open spec fn expand_spec(s: Seq<char>, vars: Seq<(String, String)>) -> Seq<char>
    decreases s.len(),
{
    if s.len() == 0 {
        s
    } else if s[0] != '$' {
        seq![s[0]] + expand_spec(s.drop_first(), vars)
    } else if s.len() == 1 {
        seq!['$']
    } else if s[1] == '{' {
        let rest = s.skip(2);
        let k = first_index(rest, '}');
        let name = rest.take(k as int);
        let after = if k < rest.len() {
            rest.skip(k as int + 1)
        } else {
            Seq::empty()
        };
        (match env_lookup(vars, name) {
            Some(v) => v,
            None => seq!['$', '{'] + name + seq!['}'],
        }) + expand_spec(after, vars)
    } else if is_name_char(s[1]) {
        let rest = s.drop_first();
        let k = name_run(rest);
        let name = rest.take(k as int);
        proof {
            lemma_name_run_bound(rest);
        }
        (match env_lookup(vars, name) {
            Some(v) => v,
            None => seq!['$'] + name,
        }) + expand_spec(rest.skip(k as int), vars)
    } else {
        seq!['$'] + expand_spec(s.drop_first(), vars)
    }
}

/// Append the characters of `name` to `out`.
fn push_chars(out: &mut String, name: &[char])
    ensures
        final(out)@ == old(out)@ + name@,
{
    let mut q: usize = 0;
    while q < name.len()
        invariant
            q <= name@.len(),
            out@ == old(out)@ + name@.take(q as int),
        decreases name@.len() - q,
    {
        push_char(out, name[q]);
        assert(out@ =~= old(out)@ + name@.take(q as int + 1));
        q = q + 1;
    }
    assert(name@.take(name@.len() as int) =~= name@);
}

/// Expand the `${...}` reference that starts at `cs[i]`.
fn step_braced(cs: &Vec<char>, i: usize, env: &EnvSnapshot, out: &mut String) -> (next: usize)
    requires
        i + 1 < cs@.len(),
        cs@[i as int] == '$',
        cs@[i as int + 1] == '{',
    ensures
        i < next <= cs@.len(),
        final(out)@ + expand_spec(cs@.skip(next as int), env.vars@) == old(out)@ + expand_spec(
            cs@.skip(i as int),
            env.vars@,
        ),
{
    let n = cs.len();
    let ghost s = cs@.skip(i as int);
    let start = i + 2;
    let mut j = start;
    while j < n && cs[j] != '}'
        invariant
            start <= j <= n,
            n == cs@.len(),
            forall|q: int| start <= q < j ==> cs@[q] != '}',
        decreases n - j,
    {
        j = j + 1;
    }
    let name = vstd::slice::slice_subrange(cs.as_slice(), start, j);
    let next = if j < n { j + 1 } else { j };
    proof {
        assert(s[0] == '$' && s[1] == '{');
        let rest = s.skip(2);
        assert(rest =~= cs@.skip(start as int));
        lemma_first_index_bound(rest, '}');
        let k = first_index(rest, '}');
        assert forall|q: int| 0 <= q < (j - start) implies rest[q] != '}' by {
            assert(rest[q] == cs@[start + q]);
        }
        if j < n {
            assert(rest[j - start] == '}');
        }
        assert(k == j - start) by {
            if k < j - start {
                assert(rest[k as int] == '}');
            }
        }
        assert(name@ =~= rest.take(k as int));
        if j < n {
            assert(rest.skip(k as int + 1) =~= cs@.skip(next as int));
        } else {
            assert(cs@.skip(next as int) =~= Seq::<char>::empty());
        }
    }
    match env.lookup_chars(name) {
        Some(v) => {
            push_str(out, v.as_str());
        },
        None => {
            push_char(out, '$');
            push_char(out, '{');
            push_chars(out, name);
            push_char(out, '}');
        },
    }
    assert(final(out)@ + expand_spec(cs@.skip(next as int), env.vars@) =~= old(out)@ + expand_spec(s, env.vars@));
    next
}

/// Expand the `$NAME` reference that starts at `cs[i]`.
fn step_bare(cs: &Vec<char>, i: usize, env: &EnvSnapshot, out: &mut String) -> (next: usize)
    requires
        i + 1 < cs@.len(),
        cs@[i as int] == '$',
        cs@[i as int + 1] != '{',
        is_name_char(cs@[i as int + 1]),
    ensures
        i < next <= cs@.len(),
        final(out)@ + expand_spec(cs@.skip(next as int), env.vars@) == old(out)@ + expand_spec(
            cs@.skip(i as int),
            env.vars@,
        ),
{
    let n = cs.len();
    let ghost s = cs@.skip(i as int);
    let start = i + 1;
    let mut j = start;
    while j < n && (alnum_char(cs[j]) || cs[j] == '_')
        invariant
            start <= j <= n,
            n == cs@.len(),
            forall|q: int| start <= q < j ==> is_name_char(cs@[q]),
        decreases n - j,
    {
        j = j + 1;
    }
    let name = vstd::slice::slice_subrange(cs.as_slice(), start, j);
    proof {
        assert(s[0] == '$' && s[1] == cs@[i as int + 1]);
        let rest = s.drop_first();
        assert(rest =~= cs@.skip(start as int));
        lemma_name_run_bound(rest);
        let k = name_run(rest);
        assert forall|q: int| 0 <= q < (j - start) implies is_name_char(rest[q]) by {
            assert(rest[q] == cs@[start + q]);
        }
        if j < n {
            assert(!is_name_char(rest[j - start]));
        }
        assert(k == j - start) by {
            if k < j - start {
                assert(!is_name_char(rest[k as int]));
            }
        }
        assert(name@ =~= rest.take(k as int));
        assert(rest.skip(k as int) =~= cs@.skip(j as int));
    }
    match env.lookup_chars(name) {
        Some(v) => {
            push_str(out, v.as_str());
        },
        None => {
            push_char(out, '$');
            push_chars(out, name);
        },
    }
    assert(final(out)@ + expand_spec(cs@.skip(j as int), env.vars@) =~= old(out)@ + expand_spec(s, env.vars@));
    j
}

/// Copy the character at `cs[i]`, which does not start a reference.
fn step_plain(cs: &Vec<char>, i: usize, env: &EnvSnapshot, out: &mut String) -> (next: usize)
    requires
        i < cs@.len(),
        cs@[i as int] != '$' || i + 1 == cs@.len() || (cs@[i as int + 1] != '{' && !is_name_char(cs@[i as int + 1])),
    ensures
        next == i + 1,
        final(out)@ + expand_spec(cs@.skip(next as int), env.vars@) == old(out)@ + expand_spec(
            cs@.skip(i as int),
            env.vars@,
        ),
{
    let ghost s = cs@.skip(i as int);
    assert(s[0] == cs@[i as int]);
    assert(s.drop_first() =~= cs@.skip(i as int + 1));
    push_char(out, cs[i]);
    if i == cs.len() - 1 && cs[i] == '$' {
        assert(s.len() == 1);
        assert(cs@.skip(i as int + 1).len() == 0);
    } else if cs[i] == '$' {
        assert(s[1] == cs@[i as int + 1]);
    }
    assert(final(out)@ + expand_spec(cs@.skip(i as int + 1), env.vars@) =~= old(out)@ + expand_spec(s, env.vars@));
    i + 1
}

/// Expand `${VAR}` and `$VAR` references in `input` from `env` (see
/// [`expand_spec`]); the surrounding text is copied unchanged.
pub fn expand_env_vars(input: &str, env: &EnvSnapshot) -> (r: String)
    ensures
        r@ == expand_spec(input@, env.vars@),
{
    let cs = chars_of(input);
    let n = cs.len();
    let mut out = String::new();
    let mut i: usize = 0;
    assert(cs@.skip(0) =~= cs@);
    while i < n
        invariant
            n == cs@.len(),
            cs@ == input@,
            i <= n,
            out@ + expand_spec(cs@.skip(i as int), env.vars@) == expand_spec(input@, env.vars@),
        decreases n - i,
    {
        if cs[i] == '$' && i + 1 < n && cs[i + 1] == '{' {
            i = step_braced(&cs, i, env, &mut out);
        } else if cs[i] == '$' && i + 1 < n && (alnum_char(cs[i + 1]) || cs[i + 1] == '_') {
            i = step_bare(&cs, i, env, &mut out);
        } else {
            i = step_plain(&cs, i, env, &mut out);
        }
    }
    assert(cs@.skip(n as int).len() == 0);
    assert(out@ =~= out@ + expand_spec(cs@.skip(n as int), env.vars@));
    out
}


// ---------------------------------------------------------------------------
// Prefixed variables as key paths
// ---------------------------------------------------------------------------

/// `s` with each `__` (left to right, without overlap) replaced by `.`.
pub open spec fn replace_dunder(s: Seq<char>) -> Seq<char>
    decreases s.len(),
{
    if s.len() == 0 {
        s
    } else if s.len() >= 2 && s[0] == '_' && s[1] == '_' {
        seq!['.'] + replace_dunder(s.skip(2))
    } else {
        seq![s[0]] + replace_dunder(s.drop_first())
    }
}

/// The dotted key path a variable named `key` maps to under `prefix`: when the
/// upper-cased `key` starts with the upper-cased `prefix`, the rest with `__`
/// read as `.`, lower-cased.
pub open spec fn env_key_path(key: Seq<char>, prefix: Seq<char>) -> Option<Seq<char>> {
    let ku = upper_seq(key);
    let pu = upper_seq(prefix);
    if pu.len() <= ku.len() && ku.take(pu.len() as int) == pu {
        Some(lower_seq(replace_dunder(ku.skip(pu.len() as int))))
    } else {
        None
    }
}

/// The key path the variable `key` maps to under `prefix`, if it matches.
pub fn env_key_to_path(key: &str, prefix: &str) -> (r: Option<String>)
    ensures
        match r {
            Some(p) => env_key_path(key@, prefix@) == Some(p@),
            None => env_key_path(key@, prefix@) is None,
        },
{
    let kc = chars_of(key);
    let pc = chars_of(prefix);
    let mut ku: Vec<char> = Vec::new();
    let mut i: usize = 0;
    while i < kc.len()
        invariant
            i <= kc@.len(),
            ku@ == upper_seq(kc@).take(i as int),
        decreases kc@.len() - i,
    {
        ku.push(upper_char(kc[i]));
        assert(ku@ =~= upper_seq(kc@).take(i as int + 1));
        i = i + 1;
    }
    assert(ku@ =~= upper_seq(key@));
    let mut pu: Vec<char> = Vec::new();
    let mut i: usize = 0;
    while i < pc.len()
        invariant
            i <= pc@.len(),
            pu@ == upper_seq(pc@).take(i as int),
        decreases pc@.len() - i,
    {
        pu.push(upper_char(pc[i]));
        assert(pu@ =~= upper_seq(pc@).take(i as int + 1));
        i = i + 1;
    }
    assert(pu@ =~= upper_seq(prefix@));
    if pu.len() > ku.len() {
        return None;
    }
    let head = vstd::slice::slice_subrange(ku.as_slice(), 0, pu.len());
    if !crate::lexical::chars_eq(head, pu.as_slice()) {
        return None;
    }
    // replace `__` by `.` and lower-case the rest
    let n = ku.len();
    let mut out = String::new();
    let mut j: usize = pu.len();
    let ghost total = lower_seq(replace_dunder(ku@.skip(pu@.len() as int)));
    assert(ku@.skip(pu@.len() as int) =~= ku@.skip(j as int));
    while j < n
        invariant
            pu@.len() <= j <= n,
            n == ku@.len(),
            out@ + lower_seq(replace_dunder(ku@.skip(j as int))) == total,
        decreases n - j,
    {
        let ghost t = ku@.skip(j as int);
        let ghost before = out@;
        if j + 1 < n && ku[j] == '_' && ku[j + 1] == '_' {
            push_char(&mut out, '.');
            proof {
                assert(t[0] == '_' && t[1] == '_');
                assert(t.skip(2) =~= ku@.skip(j as int + 2));
                assert(lower_seq(seq!['.'] + replace_dunder(t.skip(2))) =~= seq!['.'] + lower_seq(replace_dunder(t.skip(2))));
                assert(out@ + lower_seq(replace_dunder(ku@.skip(j as int + 2))) =~= before + lower_seq(replace_dunder(t)));
            }
            j = j + 2;
        } else {
            push_char(&mut out, lower_char(ku[j]));
            proof {
                assert(t[0] == ku@[j as int]);
                if t.len() >= 2 {
                    assert(t[1] == ku@[j as int + 1]);
                }
                assert(t.drop_first() =~= ku@.skip(j as int + 1));
                assert(lower_seq(seq![t[0]] + replace_dunder(t.drop_first())) =~= seq![crate::lexical::ascii_lower(t[0])] + lower_seq(replace_dunder(t.drop_first())));
                assert(out@ + lower_seq(replace_dunder(ku@.skip(j as int + 1))) =~= before + lower_seq(replace_dunder(t)));
            }
            j = j + 1;
        }
    }
    assert(ku@.skip(n as int).len() == 0);
    assert(out@ =~= total);
    Some(out)
}

} // verus!
