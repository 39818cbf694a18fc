//! The data of a build and its mathematical model.
use vstd::prelude::*;

verus! {

/// A node of a parsed YAML document, as far as a build description reads it.
#[derive(Debug, PartialEq, Eq)]
pub enum YamlValue {
    /// A string scalar.
    Scalar(String),
    /// A sequence of nodes, in document order.
    Sequence(Vec<YamlValue>),
    /// A mapping, as its entries in document order.
    Mapping(Vec<(YamlValue, YamlValue)>),
    /// Anything else: null, a number, a boolean.
    Other,
}

/// A named task: the targets it depends on and the commands it runs.
#[derive(Debug, Clone, PartialEq, Eq)]
pub struct RMakeTarget {
    pub name: String,
    pub deps: Vec<String>,
    pub cmds: Vec<String>,
}

/// What a target is, as mathematical values.
pub ghost struct TargetModel {
    pub name: Seq<char>,
    pub deps: Seq<Seq<char>>,
    pub cmds: Seq<Seq<char>>,
}

/// The characters of each string of a sequence.
pub open spec fn strings_view(v: Seq<String>) -> Seq<Seq<char>> {
    v.map_values(|s: String| s@)
}

impl View for RMakeTarget {
    type V = TargetModel;

    open spec fn view(&self) -> TargetModel {
        TargetModel {
            name: self.name@,
            deps: strings_view(self.deps@),
            cmds: strings_view(self.cmds@),
        }
    }
}

/// A named string, referred to in commands as `$(NAME)`.
#[derive(Debug, Clone, PartialEq, Eq)]
pub struct RMakeVariable {
    pub name: String,
    pub value: String,
}

impl View for RMakeVariable {
    type V = (Seq<char>, Seq<char>);

    open spec fn view(&self) -> (Seq<char>, Seq<char>) {
        (self.name@, self.value@)
    }
}

/// A loaded build: its targets and its variables.
#[derive(Debug, Clone, PartialEq, Eq)]
pub struct RMake {
    pub targets: Vec<RMakeTarget>,
    pub variables: Vec<RMakeVariable>,
}

/// What a build is, as mathematical values.
pub ghost struct BuildModel {
    pub targets: Seq<TargetModel>,
    pub variables: Seq<(Seq<char>, Seq<char>)>,
}

pub open spec fn targets_view(v: Seq<RMakeTarget>) -> Seq<TargetModel> {
    v.map_values(|t: RMakeTarget| t@)
}

pub open spec fn variables_view(v: Seq<RMakeVariable>) -> Seq<(Seq<char>, Seq<char>)> {
    v.map_values(|x: RMakeVariable| x@)
}

impl View for RMake {
    type V = BuildModel;

    open spec fn view(&self) -> BuildModel {
        BuildModel { targets: targets_view(self.targets@), variables: variables_view(self.variables@) }
    }
}

/// No two targets share a name.
pub open spec fn target_names_unique(ts: Seq<TargetModel>) -> bool {
    forall|i: int, j: int| 0 <= i < j < ts.len() ==> ts[i].name != ts[j].name
}

/// No two variables share a name.
pub open spec fn variable_names_unique(vs: Seq<(Seq<char>, Seq<char>)>) -> bool {
    forall|i: int, j: int| 0 <= i < j < vs.len() ==> vs[i].0 != vs[j].0
}

/// The output that a `$(shell ...)` form gave: its program and arguments,
/// and what the program wrote to its standard output.
#[derive(Debug, Clone, PartialEq, Eq)]
pub struct ShellOutput {
    pub command: Vec<String>,
    pub output: String,
}

impl View for ShellOutput {
    type V = (Seq<Seq<char>>, Seq<char>);

    open spec fn view(&self) -> (Seq<Seq<char>>, Seq<char>) {
        (strings_view(self.command@), self.output@)
    }
}

/// Why a build could not be loaded or run.
#[derive(Debug, Clone, PartialEq, Eq)]
pub enum RMakeError {
    /// The document, a target, or a target's `cmd` does not have the shape it must have.
    Shape,
    /// The target of this name has no `cmd`.
    MissingCmd(String),
    /// The document defines no target.
    EmptyBuild,
    /// A `$(...)` form of several words names no built-in command.
    UnknownMeta(String),
    /// A `$(shell ...)` form runs this program and these arguments, and its
    /// output is not among those given.
    ShellOutputNeeded(Vec<String>),
    /// No target has this name.
    UnknownGoal(String),
}

/// What an error is, as mathematical values.
pub ghost enum ErrorModel {
    Shape,
    MissingCmd(Seq<char>),
    EmptyBuild,
    UnknownMeta(Seq<char>),
    ShellOutputNeeded(Seq<Seq<char>>),
    UnknownGoal(Seq<char>),
}

impl View for RMakeError {
    type V = ErrorModel;

    open spec fn view(&self) -> ErrorModel {
        match self {
            RMakeError::Shape => ErrorModel::Shape,
            RMakeError::MissingCmd(n) => ErrorModel::MissingCmd(n@),
            RMakeError::EmptyBuild => ErrorModel::EmptyBuild,
            RMakeError::UnknownMeta(w) => ErrorModel::UnknownMeta(w@),
            RMakeError::ShellOutputNeeded(c) => ErrorModel::ShellOutputNeeded(strings_view(c@)),
            RMakeError::UnknownGoal(n) => ErrorModel::UnknownGoal(n@),
        }
    }
}

/// Pairs of strings, such as an environment, as mathematical values.
pub open spec fn pairs_view(v: Seq<(String, String)>) -> Seq<(Seq<char>, Seq<char>)> {
    v.map_values(|p: (String, String)| (p.0@, p.1@))
}

/// No name is both a target's and a variable's.
pub open spec fn names_disjoint(ts: Seq<TargetModel>, vs: Seq<(Seq<char>, Seq<char>)>) -> bool {
    forall|i: int, j: int| 0 <= i < ts.len() && 0 <= j < vs.len() ==> #[trigger] ts[i].name != #[trigger] vs[j].0
}

/// Every target has at least one command.
pub open spec fn targets_have_cmds(ts: Seq<TargetModel>) -> bool {
    forall|i: int| 0 <= i < ts.len() ==> (#[trigger] ts[i]).cmds.len() >= 1
}

/// Names are unique among the targets and among the variables, no name is
/// both, and every target has a command.
pub open spec fn build_wf(b: BuildModel) -> bool {
    &&& target_names_unique(b.targets)
    &&& variable_names_unique(b.variables)
    &&& names_disjoint(b.targets, b.variables)
    &&& targets_have_cmds(b.targets)
}

impl RMake {
    /// The build's model is well formed.
    pub open spec fn wf(&self) -> bool {
        build_wf(self@)
    }
}

} // verus!
