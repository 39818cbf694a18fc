//! Expansion of the `$(...)` forms in command strings.
use vstd::prelude::*;
use crate::chain::{count_false, lemma_count_false_update};
use crate::model::{
    ErrorModel, RMakeError, RMakeVariable, ShellOutput, pairs_view, strings_view, variables_view,
};
use crate::text::{same_text, split_words, words};

verus! {

/// The built-in commands that a `$(...)` form of several words may name.
#[derive(Debug, Clone, Copy, PartialEq, Eq)]
pub enum RMakeCoreCommand {
    /// Runs a program and is replaced by what it wrote to standard output.
    Shell,
    /// Reserved: replaced by nothing.
    Wildcard,
}

/// The built-in command that a keyword names.
pub open spec fn core_command_of(w: Seq<char>) -> Option<RMakeCoreCommand> {
    if w == "shell"@ {
        Some(RMakeCoreCommand::Shell)
    } else if w == "wildcard"@ || w == "whildcard"@ {
        Some(RMakeCoreCommand::Wildcard)
    } else {
        None
    }
}

impl RMakeCoreCommand {
    /// The built-in command named `s`, or a message saying that there is none.
    pub fn from_str(s: &str) -> (r: Result<RMakeCoreCommand, String>)
        ensures
            match r {
                Ok(c) => core_command_of(s@) == Some(c),
                Err(m) => core_command_of(s@) is None && m@ == s@ + " is not supported yet!"@,
            },
    {
        if same_text(s, "shell") {
            Ok(RMakeCoreCommand::Shell)
        } else if same_text(s, "wildcard") || same_text(s, "whildcard") {
            Ok(RMakeCoreCommand::Wildcard)
        } else {
            Err(String::from_str(s).concat(" is not supported yet!"))
        }
    }
}

/// What a `$(...)` form may draw on: the build's variables, the environment,
/// and the outputs of the `$(shell ...)` commands run so far.
pub ghost struct Scope {
    pub vars: Seq<(Seq<char>, Seq<char>)>,
    pub env: Seq<(Seq<char>, Seq<char>)>,
    pub shells: Seq<(Seq<Seq<char>>, Seq<char>)>,
}

/// The scope of a build's variables, an environment and recorded outputs.
pub open spec fn scope_with(
    vars: Seq<(Seq<char>, Seq<char>)>,
    env: Seq<(String, String)>,
    shells: Seq<ShellOutput>,
) -> Scope {
    Scope { vars, env: pairs_view(env), shells: shells.map_values(|o: ShellOutput| o@) }
}

/// The first index at or after `i` of a pair whose key is `key`.
pub open spec fn key_index_from(ps: Seq<(Seq<char>, Seq<char>)>, key: Seq<char>, i: int) -> Option<int>
    decreases ps.len() - i,
{
    if i < 0 || i >= ps.len() {
        None
    } else if ps[i].0 == key {
        Some(i)
    } else {
        key_index_from(ps, key, i + 1)
    }
}

pub open spec fn key_index(ps: Seq<(Seq<char>, Seq<char>)>, key: Seq<char>) -> Option<int> {
    key_index_from(ps, key, 0)
}

pub proof fn lemma_key_index_from_range(ps: Seq<(Seq<char>, Seq<char>)>, key: Seq<char>, i: int)
    requires
        0 <= i,
    ensures
        match key_index_from(ps, key, i) {
            Some(k) => i <= k < ps.len() && ps[k].0 == key,
            None => forall|j: int| i <= j < ps.len() ==> ps[j].0 != key,
        },
    decreases ps.len() - i,
{
    if i < ps.len() && ps[i].0 != key {
        lemma_key_index_from_range(ps, key, i + 1);
    }
}

/// The first index at or after `i` of a recorded output of the command `cmd`.
pub open spec fn shell_index_from(ss: Seq<(Seq<Seq<char>>, Seq<char>)>, cmd: Seq<Seq<char>>, i: int) -> Option<int>
    decreases ss.len() - i,
{
    if i < 0 || i >= ss.len() {
        None
    } else if ss[i].0 == cmd {
        Some(i)
    } else {
        shell_index_from(ss, cmd, i + 1)
    }
}

pub proof fn lemma_shell_index_from_range(ss: Seq<(Seq<Seq<char>>, Seq<char>)>, cmd: Seq<Seq<char>>, i: int)
    requires
        0 <= i,
    ensures
        match shell_index_from(ss, cmd, i) {
            Some(k) => i <= k < ss.len() && ss[k].0 == cmd,
            None => true,
        },
    decreases ss.len() - i,
{
    if i < ss.len() && ss[i].0 != cmd {
        lemma_shell_index_from_range(ss, cmd, i + 1);
    }
}

/// The first index at or after `j` of a `)`.
pub open spec fn close_from(s: Seq<char>, j: int) -> Option<int>
    decreases s.len() - j,
{
    if j < 0 || j >= s.len() {
        None
    } else if s[j] == ')' {
        Some(j)
    } else {
        close_from(s, j + 1)
    }
}

pub proof fn lemma_close_from(s: Seq<char>, j: int)
    requires
        0 <= j,
    ensures
        match close_from(s, j) {
            Some(q) => j <= q < s.len() && s[q] == ')' && forall|x: int| j <= x < q ==> s[x] != ')',
            None => forall|x: int| j <= x < s.len() ==> s[x] != ')',
        },
    decreases s.len() - j,
{
    if j < s.len() && s[j] != ')' {
        lemma_close_from(s, j + 1);
    }
}

/// A form `$(BODY)` opens at `p`: `BODY` is not empty and runs up to the
/// first `)` after the `$(`.
pub open spec fn opens_at(s: Seq<char>, p: int) -> bool {
    0 <= p && p + 1 < s.len() && s[p] == '$' && s[p + 1] == '(' && match close_from(s, p + 2) {
        Some(q) => q > p + 2,
        None => false,
    }
}

/// The first position at or after `p` where a form opens.
pub open spec fn next_form(s: Seq<char>, p: int) -> Option<int>
    decreases s.len() - p,
{
    if p < 0 || p >= s.len() {
        None
    } else if opens_at(s, p) {
        Some(p)
    } else {
        next_form(s, p + 1)
    }
}

pub proof fn lemma_next_form(s: Seq<char>, p: int)
    requires
        0 <= p,
    ensures
        match next_form(s, p) {
            Some(x) => p <= x < s.len() && opens_at(s, x) && forall|y: int| p <= y < x ==> !opens_at(s, y),
            None => forall|x: int| p <= x < s.len() ==> !opens_at(s, x),
        },
    decreases s.len() - p,
{
    if p < s.len() && !opens_at(s, p) {
        lemma_next_form(s, p + 1);
    }
}

/// `s` with each form, left to right, replaced by its replacement; the text
/// that a replacement puts in is not scanned again. `active` marks the
/// variables whose values are being expanded.
pub open spec fn expand(sc: Scope, s: Seq<char>, active: Seq<bool>) -> Result<Seq<char>, ErrorModel>
    decreases count_false(active), s.len(),
    via expand_decreases
{
    match next_form(s, 0) {
        None => Ok(s),
        Some(p) => match close_from(s, p + 2) {
            None => Ok(s),
            Some(q) => match replacement(sc, s.subrange(p + 2, q), active) {
                Err(e) => Err(e),
                Ok(r) => match expand(sc, s.subrange(q + 1, s.len() as int), active) {
                    Err(e) => Err(e),
                    Ok(t) => Ok(s.take(p) + r + t),
                },
            },
        },
    }
}

#[via_fn]
proof fn expand_decreases(sc: Scope, s: Seq<char>, active: Seq<bool>) {
    lemma_next_form(s, 0);
    match next_form(s, 0) {
        Some(p) => {
            lemma_close_from(s, p + 2);
        },
        None => {},
    }
}

/// What replaces the form whose body is `body`. One word names a variable,
/// whose value is expanded in turn (to nothing where that variable is
/// already being expanded), else an environment variable, else nothing.
/// Several words name a built-in command and its arguments.
pub open spec fn replacement(sc: Scope, body: Seq<char>, active: Seq<bool>) -> Result<Seq<char>, ErrorModel>
    decreases count_false(active), body.len(),
    via replacement_decreases
{
    let w = words(body);
    if w.len() == 0 {
        Ok(seq![])
    } else if w.len() == 1 {
        match key_index(sc.vars, w[0]) {
            Some(k) => if active.len() == sc.vars.len() && !active[k] {
                expand(sc, sc.vars[k].1, active.update(k, true))
            } else {
                Ok(seq![])
            },
            None => match key_index(sc.env, w[0]) {
                Some(e) => Ok(sc.env[e].1),
                None => Ok(seq![]),
            },
        }
    } else {
        match core_command_of(w[0]) {
            Some(RMakeCoreCommand::Shell) => match shell_index_from(sc.shells, w.drop_first(), 0) {
                Some(i) => Ok(sc.shells[i].1),
                None => Err(ErrorModel::ShellOutputNeeded(w.drop_first())),
            },
            Some(RMakeCoreCommand::Wildcard) => Ok(seq![]),
            None => Err(ErrorModel::UnknownMeta(w[0])),
        }
    }
}

#[via_fn]
proof fn replacement_decreases(sc: Scope, body: Seq<char>, active: Seq<bool>) {
    let w = words(body);
    if w.len() == 1 {
        lemma_key_index_from_range(sc.vars, w[0], 0);
        match key_index(sc.vars, w[0]) {
            Some(k) => {
                if active.len() == sc.vars.len() && !active[k] {
                    lemma_count_false_update(active, k);
                }
            },
            None => {},
        }
    }
}

/// Every `$` of `s` opens a form.
pub open spec fn dollars_open_forms(s: Seq<char>) -> bool {
    forall|x: int| 0 <= x < s.len() && s[x] == '$' ==> opens_at(s, x)
}

/// Every `$` of each variable's value opens a form, and no environment value
/// or recorded output holds a `$`.
pub open spec fn no_stray_dollars(sc: Scope) -> bool {
    &&& forall|i: int| 0 <= i < sc.vars.len() ==> dollars_open_forms(#[trigger] sc.vars[i].1)
    &&& forall|i: int| 0 <= i < sc.env.len() ==> !(#[trigger] sc.env[i].1).contains('$')
    &&& forall|i: int| 0 <= i < sc.shells.len() ==> !(#[trigger] sc.shells[i].1).contains('$')
}

/// A form that opens after the `)` at `q` opens at the same place in the text
/// that follows that `)`.
pub proof fn lemma_form_in_rest(s: Seq<char>, q: int, x: int)
    requires
        0 <= q < x < s.len(),
        opens_at(s, x),
    ensures
        opens_at(s.subrange(q + 1, s.len() as int), x - q - 1),
{
    let rest = s.subrange(q + 1, s.len() as int);
    let y = x - q - 1;
    lemma_close_from(s, x + 2);
    lemma_close_from(rest, y + 2);
    let c = close_from(s, x + 2)->Some_0;
    assert(rest[c - q - 1] == ')');
    match close_from(rest, y + 2) {
        Some(c2) => {
            assert(s[c2 + q + 1] == ')');
            if c2 + q + 1 < c {
                assert(s[c2 + q + 1] != ')');
            }
            if c2 + q + 1 > c {
                assert(rest[c - q - 1] != ')');
            }
        },
        None => {
            assert(false);
        },
    }
}

/// Where no `$` strays, the expansion of a text whose every `$` opens a
/// form holds no `$`.
pub proof fn lemma_expand_no_dollar(sc: Scope, s: Seq<char>, active: Seq<bool>)
    requires
        no_stray_dollars(sc),
        dollars_open_forms(s),
    ensures
        expand(sc, s, active) is Ok ==> !expand(sc, s, active)->Ok_0.contains('$'),
    decreases count_false(active), s.len(),
{
    lemma_next_form(s, 0);
    match next_form(s, 0) {
        None => {
            assert forall|x: int| 0 <= x < s.len() implies s[x] != '$' by {
                if s[x] == '$' {
                    assert(opens_at(s, x));
                }
            }
        },
        Some(p) => {
            lemma_close_from(s, p + 2);
            let q = close_from(s, p + 2)->Some_0;
            let body = s.subrange(p + 2, q);
            let rest = s.subrange(q + 1, s.len() as int);
            lemma_replacement_no_dollar(sc, body, active);
            assert forall|y: int| 0 <= y < rest.len() && rest[y] == '$' implies opens_at(rest, y) by {
                assert(s[y + q + 1] == '$');
                lemma_form_in_rest(s, q, y + q + 1);
            }
            lemma_expand_no_dollar(sc, rest, active);
            if expand(sc, s, active) is Ok {
                let r = replacement(sc, body, active)->Ok_0;
                let t = expand(sc, rest, active)->Ok_0;
                let out = s.take(p) + r + t;
                assert forall|x: int| 0 <= x < out.len() implies out[x] != '$' by {
                    if x < p {
                        assert(out[x] == s[x]);
                        if s[x] == '$' {
                            assert(opens_at(s, x));
                        }
                    } else if x < p + r.len() {
                        assert(out[x] == r[x - p]);
                    } else {
                        assert(out[x] == t[x - p - r.len()]);
                    }
                }
            }
        },
    }
}

/// Where no `$` strays, a replacement holds no `$`.
pub proof fn lemma_replacement_no_dollar(sc: Scope, body: Seq<char>, active: Seq<bool>)
    requires
        no_stray_dollars(sc),
    ensures
        replacement(sc, body, active) is Ok ==> !replacement(sc, body, active)->Ok_0.contains('$'),
    decreases count_false(active), body.len(),
{
    let w = words(body);
    if w.len() == 1 {
        lemma_key_index_from_range(sc.vars, w[0], 0);
        lemma_key_index_from_range(sc.env, w[0], 0);
        match key_index(sc.vars, w[0]) {
            Some(k) => {
                if active.len() == sc.vars.len() && !active[k] {
                    lemma_count_false_update(active, k);
                    assert(dollars_open_forms(sc.vars[k].1));
                    lemma_expand_no_dollar(sc, sc.vars[k].1, active.update(k, true));
                }
            },
            None => match key_index(sc.env, w[0]) {
                Some(e) => {
                    assert(!sc.env[e].1.contains('$'));
                },
                None => {},
            },
        }
    } else if w.len() > 1 {
        lemma_shell_index_from_range(sc.shells, w.drop_first(), 0);
        match shell_index_from(sc.shells, w.drop_first(), 0) {
            Some(i) => {
                assert(!sc.shells[i].1.contains('$'));
            },
            None => {},
        }
    }
}

/// The expansion of a text is closed: where every `$` of the text and of
/// each variable's value opens a form, and no environment value or recorded
/// output holds a `$`, no form at all is left in the result, so none that
/// names a variable.
pub proof fn law_expansion_closed(sc: Scope, s: Seq<char>, active: Seq<bool>)
    requires
        no_stray_dollars(sc),
        dollars_open_forms(s),
    ensures
        expand(sc, s, active) is Ok ==> forall|x: int| !opens_at(#[trigger] expand(sc, s, active)->Ok_0, x),
{
    lemma_expand_no_dollar(sc, s, active);
    if expand(sc, s, active) is Ok {
        let r = expand(sc, s, active)->Ok_0;
        assert forall|x: int| !opens_at(r, x) by {
            if opens_at(r, x) {
                assert(r[x] == '$');
                assert(r.contains('$'));
            }
        }
    }
}

/// A string result, as mathematical values.
pub open spec fn text_result(r: Result<String, RMakeError>) -> Result<Seq<char>, ErrorModel> {
    match r {
        Ok(t) => Ok(t@),
        Err(e) => Err(e@),
    }
}

/// The index of the variable named `name`.
pub(crate) fn find_variable(vars: &Vec<RMakeVariable>, name: &str) -> (r: Option<usize>)
    ensures
        match r {
            Some(k) => k < vars.len() && key_index(variables_view(vars@), name@) == Some(k as int),
            None => key_index(variables_view(vars@), name@) is None,
        },
{
    let mut i: usize = 0;
    while i < vars.len()
        invariant
            i <= vars.len(),
            key_index(variables_view(vars@), name@) == key_index_from(variables_view(vars@), name@, i as int),
        decreases vars.len() - i,
    {
        if same_text(vars[i].name.as_str(), name) {
            return Some(i);
        }
        i = i + 1;
    }
    None
}

/// The index of the environment entry named `name`.
fn find_env(env: &Vec<(String, String)>, name: &str) -> (r: Option<usize>)
    ensures
        match r {
            Some(k) => k < env.len() && key_index(pairs_view(env@), name@) == Some(k as int),
            None => key_index(pairs_view(env@), name@) is None,
        },
{
    let mut i: usize = 0;
    while i < env.len()
        invariant
            i <= env.len(),
            key_index(pairs_view(env@), name@) == key_index_from(pairs_view(env@), name@, i as int),
        decreases env.len() - i,
    {
        if same_text(env[i].0.as_str(), name) {
            return Some(i);
        }
        i = i + 1;
    }
    None
}

/// Whether two lists of strings are equal.
fn same_strings(a: &Vec<String>, b: &Vec<String>) -> (r: bool)
    ensures
        r == (strings_view(a@) == strings_view(b@)),
{
    if a.len() != b.len() {
        assert(strings_view(a@).len() != strings_view(b@).len());
        return false;
    }
    let mut i: usize = 0;
    while i < a.len()
        invariant
            a.len() == b.len(),
            i <= a.len(),
            forall|j: int| 0 <= j < i ==> a@[j]@ == b@[j]@,
        decreases a.len() - i,
    {
        if !(a[i] == b[i]) {
            assert(strings_view(a@)[i as int] != strings_view(b@)[i as int]);
            return false;
        }
        i = i + 1;
    }
    assert(strings_view(a@) =~= strings_view(b@));
    true
}

/// The index of the recorded output of the command `cmd`.
fn find_shell(shells: &Vec<ShellOutput>, cmd: &Vec<String>) -> (r: Option<usize>)
    ensures
        match r {
            Some(k) => k < shells.len() && shell_index_from(shells@.map_values(|o: ShellOutput| o@), strings_view(cmd@), 0) == Some(k as int),
            None => shell_index_from(shells@.map_values(|o: ShellOutput| o@), strings_view(cmd@), 0) is None,
        },
{
    let ghost ss = shells@.map_values(|o: ShellOutput| o@);
    let mut i: usize = 0;
    while i < shells.len()
        invariant
            i <= shells.len(),
            ss == shells@.map_values(|o: ShellOutput| o@),
            shell_index_from(ss, strings_view(cmd@), 0) == shell_index_from(ss, strings_view(cmd@), i as int),
        decreases shells.len() - i,
    {
        if same_strings(&shells[i].command, cmd) {
            return Some(i);
        }
        i = i + 1;
    }
    None
}

/// The position of the first form of `s` and of the `)` that closes it.
fn find_form(s: &str) -> (r: Option<(usize, usize)>)
    ensures
        match r {
            Some((p, q)) => next_form(s@, 0) == Some(p as int) && close_from(s@, p + 2) == Some(q as int),
            None => next_form(s@, 0) is None,
        },
{
    let n = s.unicode_len();
    let mut p: usize = 0;
    while p < n
        invariant
            n == s@.len(),
            p <= n,
            next_form(s@, 0) == next_form(s@, p as int),
        decreases n - p,
    {
        if n - p > 2 && s.get_char(p) == '$' && s.get_char(p + 1) == '(' {
            let mut q: usize = p + 2;
            while q < n && s.get_char(q) != ')'
                invariant
                    n == s@.len(),
                    p + 2 <= q <= n,
                    close_from(s@, p + 2) == close_from(s@, q as int),
                decreases n - q,
            {
                q = q + 1;
            }
            if q < n && q > p + 2 {
                return Some((p, q));
            }
        }
        p = p + 1;
    }
    None
}

/// `s` with its forms expanded, as `expand` says, or the error that stops it.
pub(crate) fn expand_text(
    vars: &Vec<RMakeVariable>,
    env: &Vec<(String, String)>,
    shells: &Vec<ShellOutput>,
    s: &str,
    active: &mut Vec<bool>,
) -> (r: Result<String, RMakeError>)
    requires
        old(active).len() == vars.len(),
    ensures
        final(active)@ == old(active)@,
        text_result(r) == expand(scope_with(variables_view(vars@), env@, shells@), s@, old(active)@),
    decreases count_false(active@), s@.len(),
{
    let ghost sc = scope_with(variables_view(vars@), env@, shells@);
    proof {
        lemma_next_form(s@, 0);
    }
    match find_form(s) {
        None => Ok(String::from_str(s)),
        Some((p, q)) => {
            proof {
                lemma_close_from(s@, p + 2);
            }
            let n = s.unicode_len();
            let body = s.substring_char(p + 2, q);
            let r = replace_form(vars, env, shells, body, active);
            match r {
                Err(e) => Err(e),
                Ok(r) => {
                    let rest = s.substring_char(q + 1, n);
                    match expand_text(vars, env, shells, rest, active) {
                        Err(e) => Err(e),
                        Ok(t) => {
                            let mut out = String::from_str(s.substring_char(0, p));
                            out.append(r.as_str());
                            out.append(t.as_str());
                            Ok(out)
                        },
                    }
                },
            }
        },
    }
}

/// `value` with its forms expanded against the variables `variables`, the
/// environment `env` and the recorded outputs `shells`, or the first error.
pub fn find_and_replace(
    value: String,
    variables: &Vec<RMakeVariable>,
    env: &Vec<(String, String)>,
    shells: &Vec<ShellOutput>,
) -> (r: Result<String, RMakeError>)
    ensures
        text_result(r) == expand(
            scope_with(variables_view(variables@), env@, shells@),
            value@,
            Seq::new(variables@.len(), |i: int| false),
        ),
{
    let mut active: Vec<bool> = Vec::new();
    let mut j: usize = 0;
    while j < variables.len()
        invariant
            j <= variables.len(),
            active@ == Seq::new(j as nat, |x: int| false),
        decreases variables.len() - j,
    {
        active.push(false);
        j = j + 1;
        assert(active@ =~= Seq::new(j as nat, |x: int| false));
    }
    expand_text(variables, env, shells, value.as_str(), &mut active)
}

/// The replacement of the form whose body is `body`, as `replacement` says.
fn replace_form(
    vars: &Vec<RMakeVariable>,
    env: &Vec<(String, String)>,
    shells: &Vec<ShellOutput>,
    body: &str,
    active: &mut Vec<bool>,
) -> (r: Result<String, RMakeError>)
    requires
        old(active).len() == vars.len(),
    ensures
        final(active)@ == old(active)@,
        text_result(r) == replacement(scope_with(variables_view(vars@), env@, shells@), body@, old(active)@),
    decreases count_false(active@), body@.len(),
{
    let w = split_words(body);
    assert(w@.map_values(|x: String| x@) =~= strings_view(w@));
    if w.len() == 0 {
        return Ok(String::new());
    }
    if w.len() == 1 {
        match find_variable(vars, w[0].as_str()) {
            Some(k) => {
                if !active[k] {
                    proof {
                        lemma_count_false_update(active@, k as int);
                    }
                    let ghost a0 = active@;
                    active.set(k, true);
                    let r = expand_text(vars, env, shells, vars[k].value.as_str(), active);
                    active.set(k, false);
                    assert(active@ =~= a0);
                    r
                } else {
                    Ok(String::new())
                }
            },
            None => match find_env(env, w[0].as_str()) {
                Some(e) => Ok(env[e].1.clone()),
                None => Ok(String::new()),
            },
        }
    } else {
        match RMakeCoreCommand::from_str(w[0].as_str()) {
            Ok(RMakeCoreCommand::Shell) => {
                let mut cmd: Vec<String> = Vec::new();
                let mut i: usize = 1;
                while i < w.len()
                    invariant
                        1 <= i <= w.len(),
                        strings_view(cmd@) == strings_view(w@).subrange(1, i as int),
                    decreases w.len() - i,
                {
                    let ghost prev = cmd@;
                    let x = w[i].clone();
                    cmd.push(x);
                    assert(strings_view(cmd@) =~= strings_view(prev).push(x@));
                    assert(strings_view(cmd@) =~= strings_view(w@).subrange(1, i + 1));
                    i = i + 1;
                }
                assert(strings_view(cmd@) =~= strings_view(w@).drop_first());
                match find_shell(shells, &cmd) {
                    Some(k) => Ok(shells[k].output.clone()),
                    None => Err(RMakeError::ShellOutputNeeded(cmd)),
                }
            },
            Ok(RMakeCoreCommand::Wildcard) => Ok(String::new()),
            Err(_) => Err(RMakeError::UnknownMeta(w[0].clone())),
        }
    }
}

} // verus!
