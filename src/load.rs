//! Loading a build from a YAML tree, and running a goal.
use vstd::prelude::*;
use crate::chain::{append_all, chain_model, lemma_index_from_range, target_index, target_position};
use crate::expand::{
    Scope, expand, expand_text, find_variable, key_index, lemma_key_index_from_range, scope_with,
};
use crate::model::{
    BuildModel, ErrorModel, RMake, RMakeError, RMakeTarget, RMakeVariable, ShellOutput, TargetModel,
    YamlValue, build_wf, strings_view, targets_view,
    variables_view,
};
use crate::parse::{lemma_target_has_cmds, target_model};

verus! {

/// `ts` with `t` in place of the target of the same name, or with `t` added.
pub open spec fn put_target(ts: Seq<TargetModel>, t: TargetModel) -> Seq<TargetModel> {
    match target_index(ts, t.name) {
        Some(i) => ts.update(i, t),
        None => ts.push(t),
    }
}

/// `vs` with `v` in place of the variable of the same name, or with `v` added.
pub open spec fn put_variable(vs: Seq<(Seq<char>, Seq<char>)>, v: (Seq<char>, Seq<char>)) -> Seq<(Seq<char>, Seq<char>)> {
    match key_index(vs, v.0) {
        Some(i) => vs.update(i, v),
        None => vs.push(v),
    }
}

/// `ts` without the target named `name`.
pub open spec fn drop_target(ts: Seq<TargetModel>, name: Seq<char>) -> Seq<TargetModel> {
    match target_index(ts, name) {
        Some(i) => ts.remove(i),
        None => ts,
    }
}

/// `vs` without the variable named `name`.
pub open spec fn drop_variable(vs: Seq<(Seq<char>, Seq<char>)>, name: Seq<char>) -> Seq<(Seq<char>, Seq<char>)> {
    match key_index(vs, name) {
        Some(i) => vs.remove(i),
        None => vs,
    }
}

/// The targets and variables of the first `n` root entries: a mapping makes
/// a target, a string a variable, anything else nothing; a later entry
/// replaces an earlier one of the same name, of either kind.
pub open spec fn extract_prefix(m: Seq<(YamlValue, YamlValue)>, n: int) -> Result<BuildModel, ErrorModel>
    decreases n,
{
    if n <= 0 {
        Ok(BuildModel { targets: seq![], variables: seq![] })
    } else {
        match extract_prefix(m, n - 1) {
            Err(e) => Err(e),
            Ok(b) => match m[n - 1].0 {
                YamlValue::Scalar(name) => match m[n - 1].1 {
                    YamlValue::Mapping(body) => match target_model(name@, body@) {
                        Err(e) => Err(e),
                        Ok(t) => Ok(
                            BuildModel {
                                targets: put_target(b.targets, t),
                                variables: drop_variable(b.variables, name@),
                            },
                        ),
                    },
                    YamlValue::Scalar(value) => Ok(
                        BuildModel {
                            targets: drop_target(b.targets, name@),
                            variables: put_variable(b.variables, (name@, value@)),
                        },
                    ),
                    _ => Ok(b),
                },
                _ => Err(ErrorModel::Shape),
            },
        }
    }
}

/// The marks of a scope with no variable being expanded.
pub open spec fn none_active(sc: Scope) -> Seq<bool> {
    Seq::new(sc.vars.len(), |i: int| false)
}

/// The first `n` commands, each expanded, or the first error.
pub open spec fn expand_cmds(sc: Scope, cmds: Seq<Seq<char>>, n: int) -> Result<Seq<Seq<char>>, ErrorModel>
    decreases n,
{
    if n <= 0 {
        Ok(seq![])
    } else {
        match expand_cmds(sc, cmds, n - 1) {
            Err(e) => Err(e),
            Ok(done) => match expand(sc, cmds[n - 1], none_active(sc)) {
                Err(e) => Err(e),
                Ok(c) => Ok(done.push(c)),
            },
        }
    }
}

/// The first `n` targets with their commands expanded, or the first error.
pub open spec fn expand_targets(sc: Scope, ts: Seq<TargetModel>, n: int) -> Result<Seq<TargetModel>, ErrorModel>
    decreases n,
{
    if n <= 0 {
        Ok(seq![])
    } else {
        match expand_targets(sc, ts, n - 1) {
            Err(e) => Err(e),
            Ok(done) => match expand_cmds(sc, ts[n - 1].cmds, ts[n - 1].cmds.len() as int) {
                Err(e) => Err(e),
                Ok(c) => Ok(done.push(TargetModel { name: ts[n - 1].name, deps: ts[n - 1].deps, cmds: c })),
            },
        }
    }
}

/// The build that a document whose root is `root` describes, its commands
/// expanded.
pub open spec fn load_model(root: YamlValue, env: Seq<(String, String)>, shells: Seq<ShellOutput>) -> Result<BuildModel, ErrorModel> {
    match root {
        YamlValue::Mapping(m) => match extract_prefix(m@, m@.len() as int) {
            Err(e) => Err(e),
            Ok(b) => if b.targets.len() == 0 {
                Err(ErrorModel::EmptyBuild)
            } else {
                match expand_targets(scope_with(b.variables, env, shells), b.targets, b.targets.len() as int) {
                    Err(e) => Err(e),
                    Ok(ts) => Ok(BuildModel { targets: ts, variables: b.variables }),
                }
            },
        },
        _ => Err(ErrorModel::Shape),
    }
}

/// The number of dependency names over all targets.
pub open spec fn total_deps(ts: Seq<TargetModel>) -> int
    decreases ts.len(),
{
    if ts.len() == 0 {
        0
    } else {
        total_deps(ts.drop_last()) + ts.last().deps.len()
    }
}

pub proof fn lemma_total_deps_prefix(ts: Seq<TargetModel>, i: int)
    requires
        0 <= i <= ts.len(),
    ensures
        0 <= total_deps(ts.take(i)) <= total_deps(ts),
    decreases ts.len(),
{
    if i < ts.len() {
        assert(ts.drop_last().take(i) =~= ts.take(i));
        lemma_total_deps_prefix(ts.drop_last(), i);
    } else {
        assert(ts.take(i) =~= ts);
        if ts.len() > 0 {
            lemma_total_deps_prefix(ts.drop_last(), i - 1);
            assert(ts.drop_last().take(i - 1) =~= ts.drop_last());
        }
    }
}

/// Puts `t` in place of the target of the same name, or adds it, and
/// removes the variable of that name.
fn insert_target(ts: &mut Vec<RMakeTarget>, vs: &mut Vec<RMakeVariable>, t: RMakeTarget)
    requires
        build_wf(BuildModel { targets: targets_view(old(ts)@), variables: variables_view(old(vs)@) }),
        t@.cmds.len() >= 1,
    ensures
        targets_view(final(ts)@) == put_target(targets_view(old(ts)@), t@),
        variables_view(final(vs)@) == drop_variable(variables_view(old(vs)@), t@.name),
        build_wf(BuildModel { targets: targets_view(final(ts)@), variables: variables_view(final(vs)@) }),
{
    let ghost before = targets_view(ts@);
    let ghost vbefore = variables_view(vs@);
    let ghost tv = t@;
    proof {
        lemma_index_from_range(before, tv.name, 0);
        lemma_key_index_from_range(vbefore, tv.name, 0);
    }
    match find_variable(vs, t.name.as_str()) {
        Some(i) => {
            vs.remove(i);
            proof {
                vbefore.remove_ensures(i as int);
            }
            assert(variables_view(vs@) =~= vbefore.remove(i as int));
        },
        None => {},
    }
    let ghost vafter = variables_view(vs@);
    assert forall|j: int| 0 <= j < vafter.len() implies vafter[j].0 != tv.name
        && exists|k: int| 0 <= k < vbefore.len() && #[trigger] vbefore[k] == vafter[j] by {
        match key_index(vbefore, tv.name) {
            Some(i) => {
                if j < i {
                    assert(vafter[j] == vbefore[j]);
                    assert(vbefore[j].0 != vbefore[i].0);
                } else {
                    assert(vafter[j] == vbefore[j + 1]);
                    assert(vbefore[j + 1].0 != vbefore[i].0);
                }
            },
            None => {
                assert(vafter[j] == vbefore[j]);
            },
        }
    }
    assert forall|a: int, b: int| 0 <= a < b < vafter.len() implies vafter[a].0 != vafter[b].0 by {
        match key_index(vbefore, tv.name) {
            Some(i) => {
                let a2 = if a < i { a } else { a + 1 };
                let b2 = if b < i { b } else { b + 1 };
                assert(vafter[a] == vbefore[a2]);
                assert(vafter[b] == vbefore[b2]);
            },
            None => {},
        }
    }
    match target_position(ts, &t.name) {
        Some(i) => {
            ts.set(i, t);
            assert(targets_view(ts@) =~= before.update(i as int, tv));
        },
        None => {
            ts.push(t);
            assert(targets_view(ts@) =~= before.push(tv));
        },
    }
    let ghost tafter = targets_view(ts@);
    assert forall|x: int, j: int| 0 <= x < tafter.len() && 0 <= j < vafter.len() implies tafter[x].name
        != vafter[j].0 by {
        if tafter[x].name != tv.name {
            assert(tafter[x] == before[x]);
            let k = choose|k: int| 0 <= k < vbefore.len() && #[trigger] vbefore[k] == vafter[j];
            assert(before[x].name != vbefore[k].0);
        }
    }
    assert forall|x: int| 0 <= x < tafter.len() implies (#[trigger] tafter[x]).cmds.len() >= 1 by {
        if tafter[x] != tv {
            assert(tafter[x] == before[x]);
        }
    }
}

/// Puts `v` in place of the variable of the same name, or adds it, and
/// removes the target of that name.
fn insert_variable(ts: &mut Vec<RMakeTarget>, vs: &mut Vec<RMakeVariable>, v: RMakeVariable)
    requires
        build_wf(BuildModel { targets: targets_view(old(ts)@), variables: variables_view(old(vs)@) }),
    ensures
        targets_view(final(ts)@) == drop_target(targets_view(old(ts)@), v@.0),
        variables_view(final(vs)@) == put_variable(variables_view(old(vs)@), v@),
        build_wf(BuildModel { targets: targets_view(final(ts)@), variables: variables_view(final(vs)@) }),
{
    let ghost before = targets_view(ts@);
    let ghost vbefore = variables_view(vs@);
    let ghost vv = v@;
    proof {
        lemma_index_from_range(before, vv.0, 0);
        lemma_key_index_from_range(vbefore, vv.0, 0);
    }
    match target_position(ts, &v.name) {
        Some(i) => {
            ts.remove(i);
            proof {
                before.remove_ensures(i as int);
            }
            assert(targets_view(ts@) =~= before.remove(i as int));
        },
        None => {},
    }
    let ghost tafter = targets_view(ts@);
    assert forall|j: int| 0 <= j < tafter.len() implies tafter[j].name != vv.0
        && exists|k: int| 0 <= k < before.len() && #[trigger] before[k] == tafter[j] by {
        match target_index(before, vv.0) {
            Some(i) => {
                if j < i {
                    assert(tafter[j] == before[j]);
                    assert(before[j].name != before[i].name);
                } else {
                    assert(tafter[j] == before[j + 1]);
                    assert(before[j + 1].name != before[i].name);
                }
            },
            None => {
                assert(tafter[j] == before[j]);
            },
        }
    }
    assert forall|a: int, b: int| 0 <= a < b < tafter.len() implies tafter[a].name != tafter[b].name by {
        match target_index(before, vv.0) {
            Some(i) => {
                let a2 = if a < i { a } else { a + 1 };
                let b2 = if b < i { b } else { b + 1 };
                assert(tafter[a] == before[a2]);
                assert(tafter[b] == before[b2]);
            },
            None => {},
        }
    }
    assert forall|x: int| 0 <= x < tafter.len() implies (#[trigger] tafter[x]).cmds.len() >= 1 by {
        let k = choose|k: int| 0 <= k < before.len() && #[trigger] before[k] == tafter[x];
        assert(before[k].cmds.len() >= 1);
    }
    match find_variable(vs, v.name.as_str()) {
        Some(i) => {
            vs.set(i, v);
            assert(variables_view(vs@) =~= vbefore.update(i as int, vv));
        },
        None => {
            vs.push(v);
            assert(variables_view(vs@) =~= vbefore.push(vv));
        },
    }
    let ghost vafter = variables_view(vs@);
    assert forall|x: int, j: int| 0 <= x < tafter.len() && 0 <= j < vafter.len() implies tafter[x].name
        != vafter[j].0 by {
        if vafter[j].0 != vv.0 {
            assert(vafter[j] == vbefore[j]);
            let k = choose|k: int| 0 <= k < before.len() && #[trigger] before[k] == tafter[x];
            assert(before[k].name != vbefore[j].0);
        }
    }
}

impl RMakeTarget {
    /// A copy of this target.
    pub fn copy(&self) -> (r: RMakeTarget)
        ensures
            r@ == self@,
    {
        let mut deps: Vec<String> = Vec::new();
        append_all(&mut deps, &self.deps);
        let mut cmds: Vec<String> = Vec::new();
        append_all(&mut cmds, &self.cmds);
        assert(strings_view(deps@) =~= strings_view(self.deps@));
        assert(strings_view(cmds@) =~= strings_view(self.cmds@));
        RMakeTarget { name: self.name.clone(), deps, cmds }
    }

    /// Expands the forms in each command, with the variables `variables`,
    /// the environment `env` and the recorded outputs `shells`. On an error
    /// the target is left as it was.
    pub fn expand_commands(
        &mut self,
        variables: &Vec<RMakeVariable>,
        env: &Vec<(String, String)>,
        shells: &Vec<ShellOutput>,
    ) -> (r: Result<(), RMakeError>)
        ensures
            match expand_cmds(
                scope_with(variables_view(variables@), env@, shells@),
                old(self)@.cmds,
                old(self)@.cmds.len() as int,
            ) {
                Ok(c) => r is Ok && final(self)@ == (TargetModel { name: old(self)@.name, deps: old(self)@.deps, cmds: c }),
                Err(e) => r is Err && r->Err_0@ == e && final(self)@ == old(self)@,
            },
    {
        let ghost sc = scope_with(variables_view(variables@), env@, shells@);
        let mut active: Vec<bool> = Vec::new();
        let mut j: usize = 0;
        while j < variables.len()
            invariant
                j <= variables.len(),
                active@ == Seq::new(j as nat, |x: int| false),
            decreases variables.len() - j,
        {
            active.push(false);
            j = j + 1;
            assert(active@ =~= Seq::new(j as nat, |x: int| false));
        }
        assert(active@ =~= none_active(sc));
        let mut out: Vec<String> = Vec::new();
        assert(strings_view(out@) =~= seq![]);
        let mut i: usize = 0;
        while i < self.cmds.len()
            invariant
                i <= self.cmds.len(),
                active@ == none_active(sc),
                sc == scope_with(variables_view(variables@), env@, shells@),
                expand_cmds(sc, self@.cmds, i as int) == Ok::<Seq<Seq<char>>, ErrorModel>(strings_view(out@)),
            decreases self.cmds.len() - i,
        {
            let r = expand_text(variables, env, shells, self.cmds[i].as_str(), &mut active);
                        match r {
                Err(e) => {
                    proof {
                        let k = self@.cmds.len() as int;
                        lemma_expand_cmds_err(sc, self@.cmds, i as int + 1, k);
                    }
                    return Err(e);
                },
                Ok(c) => {
                    let ghost prev = out@;
                    out.push(c);
                    assert(strings_view(out@) =~= strings_view(prev).push(c@));
                },
            }
            i = i + 1;
        }
        self.cmds = out;
        Ok(())
    }
}

impl RMake {
    /// The targets and the variables of the root mapping `global_map`.
    fn extract_targets_and_variables(global_map: &Vec<(YamlValue, YamlValue)>) -> (r: Result<
        (Vec<RMakeTarget>, Vec<RMakeVariable>),
        RMakeError,
    >)
        ensures
            match extract_prefix(global_map@, global_map@.len() as int) {
                Ok(b) => r is Ok && targets_view(r->Ok_0.0@) == b.targets && variables_view(r->Ok_0.1@)
                    == b.variables && build_wf(b),
                Err(e) => r is Err && r->Err_0@ == e,
            },
    {
        let mut ts: Vec<RMakeTarget> = Vec::new();
        let mut vs: Vec<RMakeVariable> = Vec::new();
        assert(targets_view(ts@) =~= seq![]);
        assert(variables_view(vs@) =~= seq![]);
        let mut i: usize = 0;
        while i < global_map.len()
            invariant
                i <= global_map.len(),
                extract_prefix(global_map@, i as int) == Ok::<BuildModel, ErrorModel>(
                    BuildModel { targets: targets_view(ts@), variables: variables_view(vs@) },
                ),
                build_wf(BuildModel { targets: targets_view(ts@), variables: variables_view(vs@) }),
            decreases global_map.len() - i,
        {
            let entry = &global_map[i];
            match &entry.0 {
                YamlValue::Scalar(name) => match &entry.1 {
                    YamlValue::Mapping(body) => match RMakeTarget::from_mapping(name.clone(), body) {
                        Err(e) => {
                            proof {
                                lemma_extract_err(global_map@, i + 1, global_map@.len() as int);
                            }
                            return Err(e);
                        },
                        Ok(t) => {
                            proof {
                                lemma_target_has_cmds(name@, body@);
                            }
                            insert_target(&mut ts, &mut vs, t);
                        },
                    },
                    YamlValue::Scalar(value) => {
                        insert_variable(&mut ts, &mut vs, RMakeVariable { name: name.clone(), value: value.clone() });
                    },
                    _ => {},
                },
                _ => {
                    proof {
                        lemma_extract_err(global_map@, i + 1, global_map@.len() as int);
                    }
                    return Err(RMakeError::Shape);
                },
            }
            i = i + 1;
        }
        Ok((ts, vs))
    }

    /// The build that the document whose root is `root` describes, with the
    /// forms in its commands expanded against its variables, the environment
    /// `env` and the recorded outputs `shells`.
    pub fn new(root: &YamlValue, env: &Vec<(String, String)>, shells: &Vec<ShellOutput>) -> (r: Result<RMake, RMakeError>)
        ensures
            match load_model(*root, env@, shells@) {
                Ok(b) => r is Ok && r->Ok_0@ == b && r->Ok_0.wf(),
                Err(e) => r is Err && r->Err_0@ == e,
            },
    {
        let m = match root {
            YamlValue::Mapping(m) => m,
            _ => {
                return Err(RMakeError::Shape);
            },
        };
        let (ts, vs) = match RMake::extract_targets_and_variables(m) {
            Err(e) => {
                return Err(e);
            },
            Ok(p) => p,
        };
        if ts.len() == 0 {
            return Err(RMakeError::EmptyBuild);
        }
        let ghost sc = scope_with(variables_view(vs@), env@, shells@);
        let ghost tv = targets_view(ts@);
        let ghost bm = BuildModel { targets: tv, variables: variables_view(vs@) };
        assert(extract_prefix(m@, m@.len() as int) == Ok::<BuildModel, ErrorModel>(bm));
        let mut done: Vec<RMakeTarget> = Vec::new();
        assert(targets_view(done@) =~= seq![]);
        let mut i: usize = 0;
        while i < ts.len()
            invariant
                i <= ts.len(),
                tv == targets_view(ts@),
                sc == scope_with(variables_view(vs@), env@, shells@),
                bm == (BuildModel { targets: tv, variables: variables_view(vs@) }),
                extract_prefix(m@, m@.len() as int) == Ok::<BuildModel, ErrorModel>(bm),
                *root == YamlValue::Mapping(*m),
                tv.len() > 0,
                done.len() == i,
                expand_targets(sc, tv, i as int) == Ok::<Seq<TargetModel>, ErrorModel>(targets_view(done@)),
                build_wf(bm),
                forall|j: int| 0 <= j < i ==> (#[trigger] done@[j]).name@ == ts@[j].name@,
                forall|j: int| 0 <= j < i ==> (#[trigger] done@[j]).cmds.len() == ts@[j].cmds.len(),
            decreases ts.len() - i,
        {
            let mut t = ts[i].copy();
            let ghost t0 = t@;
            assert(t0 == tv[i as int]);
            match t.expand_commands(&vs, env, shells) {
                Err(e) => {
                    assert(expand_cmds(sc, t0.cmds, t0.cmds.len() as int) == Err::<Seq<Seq<char>>, ErrorModel>(e@));
                    assert(expand_targets(sc, tv, i + 1) == Err::<Seq<TargetModel>, ErrorModel>(e@));
                    proof {
                        lemma_expand_targets_err(sc, tv, i + 1, tv.len() as int);
                        assert(sc == scope_with(bm.variables, env@, shells@));
                        assert(load_model(*root, env@, shells@) == Err::<BuildModel, ErrorModel>(e@));
                    }
                    return Err(e);
                },
                Ok(()) => {
                    proof {
                        lemma_expand_cmds_len(sc, t0.cmds, t0.cmds.len() as int);
                    }
                    assert(t@.cmds.len() == t0.cmds.len());
                },
            }
            let ghost prev = done@;
            let ghost tt = t@;
            done.push(t);
            assert(targets_view(done@) =~= targets_view(prev).push(tt));
            i = i + 1;
        }
        let b = RMake { targets: done, variables: vs };
        assert forall|x: int, y: int| 0 <= x < y < b@.targets.len() implies b@.targets[x].name != b@.targets[y].name by {
            assert(b@.targets[x].name == tv[x].name);
            assert(b@.targets[y].name == tv[y].name);
        }
        assert forall|x: int, y: int| 0 <= x < b@.targets.len() && 0 <= y < b@.variables.len() implies
            #[trigger] b@.targets[x].name != #[trigger] b@.variables[y].0 by {
            assert(b@.targets[x].name == tv[x].name);
        }
        assert forall|x: int| 0 <= x < b@.targets.len() implies (#[trigger] b@.targets[x]).cmds.len() >= 1 by {
            assert(b@.targets[x].cmds.len() == tv[x].cmds.len());
            assert(tv[x].cmds.len() >= 1);
        }
        Ok(b)
    }

    /// The target named `name`.
    pub fn get_target(&self, name: String) -> (r: Option<&RMakeTarget>)
        ensures
            match target_index(self@.targets, name@) {
                Some(g) => r is Some && r->Some_0@ == self@.targets[g],
                None => r is None,
            },
    {
        match self.find_target(&name) {
            Some(g) => Some(&self.targets[g]),
            None => None,
        }
    }

    /// The number of dependency names over all targets.
    pub fn count_deps(&self) -> (r: usize)
        requires
            total_deps(self@.targets) <= usize::MAX,
        ensures
            r == total_deps(self@.targets),
    {
        let ghost tv = self@.targets;
        let mut sum: usize = 0;
        let mut i: usize = 0;
        while i < self.targets.len()
            invariant
                i <= self.targets.len(),
                tv == self@.targets,
                total_deps(tv) <= usize::MAX,
                sum == total_deps(tv.take(i as int)),
            decreases self.targets.len() - i,
        {
            proof {
                assert(tv.take(i + 1).drop_last() =~= tv.take(i as int));
                lemma_total_deps_prefix(tv, i + 1);
            }
            sum = sum + self.targets[i].deps.len();
            i = i + 1;
        }
        assert(tv.take(i as int) =~= tv);
        sum
    }

    /// The commands to run for the goal named `name`, in order.
    pub fn run(&self, name: String) -> (r: Result<Vec<String>, RMakeError>)
        ensures
            match target_index(self@.targets, name@) {
                Some(g) => r is Ok && strings_view(r->Ok_0@) == chain_model(self@.targets, self@.targets[g]),
                None => r is Err && r->Err_0@ == ErrorModel::UnknownGoal(name@),
            },
    {
        match self.find_target(&name) {
            Some(g) => Ok(self.chain_commands(self.targets[g].copy())),
            None => Err(RMakeError::UnknownGoal(name)),
        }
    }
}

/// Expanding commands keeps their number.
pub proof fn lemma_expand_cmds_len(sc: Scope, cmds: Seq<Seq<char>>, n: int)
    requires
        0 <= n,
    ensures
        expand_cmds(sc, cmds, n) is Ok ==> expand_cmds(sc, cmds, n)->Ok_0.len() == n,
    decreases n,
{
    if n > 0 {
        lemma_expand_cmds_len(sc, cmds, n - 1);
    }
}

/// Once a prefix of the commands fails, every longer prefix fails alike.
pub proof fn lemma_expand_cmds_err(sc: Scope, cmds: Seq<Seq<char>>, i: int, k: int)
    requires
        0 <= i <= k,
        expand_cmds(sc, cmds, i) is Err,
    ensures
        expand_cmds(sc, cmds, k) == expand_cmds(sc, cmds, i),
    decreases k - i,
{
    if i < k {
        lemma_expand_cmds_err(sc, cmds, i, k - 1);
    }
}

/// Once a prefix of the targets fails, every longer prefix fails alike.
pub proof fn lemma_expand_targets_err(sc: Scope, ts: Seq<TargetModel>, i: int, k: int)
    requires
        0 <= i <= k,
        expand_targets(sc, ts, i) is Err,
    ensures
        expand_targets(sc, ts, k) == expand_targets(sc, ts, i),
    decreases k - i,
{
    if i < k {
        lemma_expand_targets_err(sc, ts, i, k - 1);
    }
}

/// Once a prefix of the root entries fails, every longer prefix fails alike.
pub proof fn lemma_extract_err(m: Seq<(YamlValue, YamlValue)>, i: int, k: int)
    requires
        0 <= i <= k,
        extract_prefix(m, i) is Err,
    ensures
        extract_prefix(m, k) == extract_prefix(m, i),
    decreases k - i,
{
    if i < k {
        lemma_extract_err(m, i, k - 1);
    }
}

} // verus!
