//! Reading targets and variables out of a YAML tree.
use vstd::prelude::*;
use crate::model::{ErrorModel, RMakeError, RMakeTarget, RMakeVariable, TargetModel, YamlValue, strings_view};
use crate::text::{lines, lines_from, same_text, split_lines};

verus! {

/// Whether `k` is the string scalar `key`.
pub open spec fn is_key(k: YamlValue, key: Seq<char>) -> bool {
    match k {
        YamlValue::Scalar(s) => s@ == key,
        _ => false,
    }
}

/// The first index at or after `i` of an entry whose key is `key`.
pub open spec fn entry_from(m: Seq<(YamlValue, YamlValue)>, key: Seq<char>, i: int) -> Option<int>
    decreases m.len() - i,
{
    if i < 0 || i >= m.len() {
        None
    } else if is_key(m[i].0, key) {
        Some(i)
    } else {
        entry_from(m, key, i + 1)
    }
}

pub proof fn lemma_entry_from(m: Seq<(YamlValue, YamlValue)>, key: Seq<char>, i: int)
    requires
        0 <= i,
    ensures
        match entry_from(m, key, i) {
            Some(k) => i <= k < m.len() && is_key(m[k].0, key),
            None => forall|j: int| i <= j < m.len() ==> !is_key(m[j].0, key),
        },
    decreases m.len() - i,
{
    if i < m.len() && !is_key(m[i].0, key) {
        lemma_entry_from(m, key, i + 1);
    }
}

/// The value under `key` in a mapping.
pub open spec fn lookup(m: Seq<(YamlValue, YamlValue)>, key: Seq<char>) -> Option<YamlValue> {
    match entry_from(m, key, 0) {
        Some(i) => Some(m[i].1),
        None => None,
    }
}

/// The string scalars among `items`, in order.
pub open spec fn scalars_of(items: Seq<YamlValue>) -> Seq<Seq<char>>
    decreases items.len(),
{
    if items.len() == 0 {
        seq![]
    } else {
        scalars_of(items.drop_last()) + match items.last() {
            YamlValue::Scalar(s) => seq![s@],
            _ => seq![],
        }
    }
}

/// Whether every one of `items` is a string scalar.
pub open spec fn all_scalars(items: Seq<YamlValue>) -> bool {
    forall|i: int| 0 <= i < items.len() ==> items[i] is Scalar
}

/// The dependencies that a `dep` entry names.
pub open spec fn deps_of(dep: Option<YamlValue>) -> Seq<Seq<char>> {
    match dep {
        Some(YamlValue::Scalar(s)) => seq![s@],
        Some(YamlValue::Sequence(items)) => scalars_of(items@),
        _ => seq![],
    }
}

/// The commands that a `cmd` entry gives, or `None` where it has the wrong
/// shape or gives no command.
pub open spec fn cmds_of(cmd: YamlValue) -> Option<Seq<Seq<char>>> {
    match cmd {
        YamlValue::Scalar(s) => Some(lines(s@)),
        YamlValue::Sequence(items) => if items@.len() > 0 && all_scalars(items@) {
            Some(scalars_of(items@))
        } else {
            None
        },
        _ => None,
    }
}

/// The target named `name` whose body is the mapping `m`.
pub open spec fn target_model(name: Seq<char>, m: Seq<(YamlValue, YamlValue)>) -> Result<TargetModel, ErrorModel> {
    match lookup(m, "cmd"@) {
        None => Err(ErrorModel::MissingCmd(name)),
        Some(c) => match cmds_of(c) {
            None => Err(ErrorModel::Shape),
            Some(cmds) => Ok(TargetModel { name, deps: deps_of(lookup(m, "dep"@)), cmds }),
        },
    }
}

pub proof fn lemma_lines_without_newline(s: Seq<char>, i: int)
    requires
        0 <= i <= s.len(),
        !s.contains('\n'),
    ensures
        lines_from(s, i, 0) == seq![s],
    decreases s.len() - i,
{
    if i < s.len() {
        assert(s[i] != '\n');
        lemma_lines_without_newline(s, i + 1);
    } else {
        assert(s.subrange(0, s.len() as int) =~= s);
    }
}

pub proof fn lemma_lines_nonempty(s: Seq<char>, i: int, start: int)
    ensures
        lines_from(s, i, start).len() >= 1,
    decreases s.len() - i,
{
    if i < s.len() {
        lemma_lines_nonempty(s, i + 1, if s[i] == '\n' { i + 1 } else { start });
    }
}

pub proof fn lemma_scalars_len(items: Seq<YamlValue>)
    requires
        all_scalars(items),
    ensures
        scalars_of(items).len() == items.len(),
    decreases items.len(),
{
    if items.len() > 0 {
        assert(all_scalars(items.drop_last()));
        lemma_scalars_len(items.drop_last());
        assert(items[items.len() - 1] is Scalar);
    }
}

/// A parsed target has at least one command.
pub proof fn lemma_target_has_cmds(name: Seq<char>, m: Seq<(YamlValue, YamlValue)>)
    ensures
        target_model(name, m) is Ok ==> target_model(name, m)->Ok_0.cmds.len() >= 1,
{
    match lookup(m, "cmd"@) {
        Some(YamlValue::Scalar(s)) => lemma_lines_nonempty(s@, 0, 0),
        Some(YamlValue::Sequence(items)) => {
            if all_scalars(items@) {
                lemma_scalars_len(items@);
            }
        },
        _ => {},
    }
}

/// A `cmd` given as one string without a newline gives the same target as a
/// `cmd` given as a sequence of that one string.
pub proof fn law_single_line_cmd(
    name: Seq<char>,
    m1: Seq<(YamlValue, YamlValue)>,
    m2: Seq<(YamlValue, YamlValue)>,
    line: String,
    items: Vec<YamlValue>,
)
    requires
        lookup(m1, "cmd"@) == Some(YamlValue::Scalar(line)),
        lookup(m2, "cmd"@) == Some(YamlValue::Sequence(items)),
        items@.len() == 1,
        items@[0] is Scalar,
        items@[0]->Scalar_0@ == line@,
        !line@.contains('\n'),
        lookup(m1, "dep"@) == lookup(m2, "dep"@),
    ensures
        target_model(name, m1) == target_model(name, m2),
{
    lemma_lines_without_newline(line@, 0);
    assert(items@.drop_last() =~= seq![]);
    assert(scalars_of(items@.drop_last()) =~= seq![]);
    assert(items@.last() == items@[0]);
    assert(scalars_of(items@) =~= seq![line@]);
}

/// The value under `key` in the mapping `m`.
pub fn get_entry<'a>(m: &'a Vec<(YamlValue, YamlValue)>, key: &str) -> (r: Option<&'a YamlValue>)
    ensures
        match r {
            Some(v) => lookup(m@, key@) == Some(*v),
            None => lookup(m@, key@) is None,
        },
{
    let mut i: usize = 0;
    while i < m.len()
        invariant
            i <= m.len(),
            entry_from(m@, key@, 0) == entry_from(m@, key@, i as int),
        decreases m.len() - i,
    {
        match &m[i].0 {
            YamlValue::Scalar(s) => {
                if same_text(s.as_str(), key) {
                    return Some(&m[i].1);
                }
            },
            _ => {},
        }
        i = i + 1;
    }
    None
}

/// The string scalars among `items`; `None` where `all` is asked for and
/// one of them is not a string.
fn collect_scalars(items: &Vec<YamlValue>, all: bool) -> (r: Option<Vec<String>>)
    ensures
        match r {
            Some(v) => strings_view(v@) == scalars_of(items@) && (all ==> all_scalars(items@)),
            None => all && !all_scalars(items@),
        },
{
    let mut out: Vec<String> = Vec::new();
    let mut i: usize = 0;
    while i < items.len()
        invariant
            i <= items.len(),
            strings_view(out@) == scalars_of(items@.take(i as int)),
            all ==> all_scalars(items@.take(i as int)),
        decreases items.len() - i,
    {
        assert(items@.take(i + 1).drop_last() =~= items@.take(i as int));
        match &items[i] {
            YamlValue::Scalar(s) => {
                let ghost prev = out@;
                let x = s.clone();
                out.push(x);
                assert(strings_view(out@) =~= strings_view(prev) + seq![x@]);
            },
            _ => {
                if all {
                    return None;
                }
                assert(scalars_of(items@.take(i + 1)) =~= scalars_of(items@.take(i as int)));
            },
        }
        proof {
            if all {
                assert forall|j: int| 0 <= j < i + 1 implies #[trigger] items@.take(i + 1)[j] is Scalar by {
                    if j < i {
                        assert(items@.take(i as int)[j] is Scalar);
                    }
                }
            }
        }
        i = i + 1;
    }
    assert(items@.take(i as int) =~= items@);
    Some(out)
}

impl RMakeVariable {
    /// The variable `name` whose value is `value`, where that is a string.
    pub fn from_value(name: String, value: &YamlValue) -> (r: Option<RMakeVariable>)
        ensures
            match value {
                YamlValue::Scalar(s) => r is Some && r->Some_0@ == (name@, s@),
                _ => r is None,
            },
    {
        match value {
            YamlValue::Scalar(s) => Some(RMakeVariable { name, value: s.clone() }),
            _ => None,
        }
    }
}

impl RMakeTarget {
    /// The target named `name` whose body is the mapping `mapping`: its
    /// commands from `cmd`, split into lines where that is one string, and
    /// its dependencies from `dep`.
    pub fn from_mapping(name: String, mapping: &Vec<(YamlValue, YamlValue)>) -> (r: Result<RMakeTarget, RMakeError>)
        ensures
            match r {
                Ok(t) => target_model(name@, mapping@) == Ok::<TargetModel, ErrorModel>(t@),
                Err(e) => target_model(name@, mapping@) == Err::<TargetModel, ErrorModel>(e@),
            },
    {
        let cmd = match get_entry(mapping, "cmd") {
            None => {
                return Err(RMakeError::MissingCmd(name));
            },
            Some(c) => c,
        };
        let cmds = match cmd {
            YamlValue::Scalar(s) => {
                let v = split_lines(s.as_str());
                assert(v@.map_values(|w: String| w@) =~= strings_view(v@));
                v
            },
            YamlValue::Sequence(items) => match collect_scalars(items, true) {
                Some(v) => {
                    if items.len() == 0 {
                        return Err(RMakeError::Shape);
                    }
                    v
                },
                None => {
                    return Err(RMakeError::Shape);
                },
            },
            _ => {
                return Err(RMakeError::Shape);
            },
        };
        let deps = match get_entry(mapping, "dep") {
            Some(YamlValue::Scalar(s)) => {
                let mut v: Vec<String> = Vec::new();
                v.push(s.clone());
                assert(strings_view(v@) =~= seq![s@]);
                v
            },
            Some(YamlValue::Sequence(items)) => match collect_scalars(items, false) {
                Some(v) => v,
                None => Vec::new(),
            },
            _ => {
                let v: Vec<String> = Vec::new();
                assert(strings_view(v@) =~= seq![]);
                v
            },
        };
        Ok(RMakeTarget { name, deps, cmds })
    }

    /// The target named `name` at the root mapping `mapping`.
    pub fn from_global(name: String, mapping: &Vec<(YamlValue, YamlValue)>) -> (r: Result<RMakeTarget, RMakeError>)
        ensures
            match lookup(mapping@, name@) {
                None => r == Err::<RMakeTarget, RMakeError>(RMakeError::UnknownGoal(name)),
                Some(YamlValue::Mapping(m)) => match r {
                    Ok(t) => target_model(name@, m@) == Ok::<TargetModel, ErrorModel>(t@),
                    Err(e) => target_model(name@, m@) == Err::<TargetModel, ErrorModel>(e@),
                },
                Some(_) => r is Err && r->Err_0 == RMakeError::Shape,
            },
    {
        match get_entry(mapping, name.as_str()) {
            None => Err(RMakeError::UnknownGoal(name)),
            Some(YamlValue::Mapping(m)) => RMakeTarget::from_mapping(name, m),
            Some(_) => Err(RMakeError::Shape),
        }
    }
}

} // verus!
