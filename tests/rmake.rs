use rmake::{
    find_and_replace, split_lines, split_words, RMake, RMakeCoreCommand, RMakeError, RMakeTarget,
    RMakeVariable, ShellOutput, YamlValue,
};

fn s(x: &str) -> YamlValue {
    YamlValue::Scalar(x.to_string())
}

fn seq_of(xs: &[&str]) -> YamlValue {
    YamlValue::Sequence(xs.iter().map(|x| s(x)).collect())
}

fn map_of(entries: Vec<(&str, YamlValue)>) -> YamlValue {
    YamlValue::Mapping(entries.into_iter().map(|(k, v)| (s(k), v)).collect())
}

fn target(cmd: YamlValue, dep: Option<YamlValue>) -> YamlValue {
    let mut entries = vec![];
    if let Some(d) = dep {
        entries.push(("dep", d));
    }
    entries.push(("cmd", cmd));
    map_of(entries)
}

fn strings(xs: &[&str]) -> Vec<String> {
    xs.iter().map(|x| x.to_string()).collect()
}

fn load(root: &YamlValue) -> RMake {
    RMake::new(root, &vec![], &vec![]).unwrap()
}

fn no_env() -> Vec<(String, String)> {
    vec![]
}

#[test]
fn linear_chain() {
    let root = map_of(vec![
        ("a", target(s("A"), None)),
        ("b", target(s("B"), Some(s("a")))),
        ("c", target(s("C"), Some(s("b")))),
    ]);
    let rm = load(&root);
    assert_eq!(rm.run("c".to_string()).unwrap(), strings(&["A", "B", "C"]));
}

#[test]
fn diamond_emits_shared_dependency_once() {
    let root = map_of(vec![
        ("a", target(s("A"), None)),
        ("b", target(s("B"), Some(s("a")))),
        ("c", target(s("C"), Some(s("a")))),
        ("d", target(s("D"), Some(seq_of(&["b", "c"])))),
    ]);
    let rm = load(&root);
    assert_eq!(rm.run("d".to_string()).unwrap(), strings(&["A", "B", "C", "D"]));
}

#[test]
fn block_scalar_cmd_is_split_into_lines() {
    let t = RMakeTarget::from_mapping(
        "t".to_string(),
        &vec![(s("cmd"), s("echo 1\necho 2"))],
    )
    .unwrap();
    assert_eq!(t.cmds, strings(&["echo 1", "echo 2"]));
    assert!(t.deps.is_empty());
}

#[test]
fn block_scalar_with_final_newline_keeps_empty_line() {
    let t = RMakeTarget::from_mapping("t".to_string(), &vec![(s("cmd"), s("a\nb\n"))]).unwrap();
    assert_eq!(t.cmds, strings(&["a", "b", ""]));
}

#[test]
fn variables_expand_recursively() {
    let root = map_of(vec![
        ("CC", s("gcc")),
        ("FLAGS", s("-O2 $(EXTRA)")),
        ("EXTRA", s("-g")),
        ("t", target(s("$(CC) $(FLAGS) main.c"), None)),
    ]);
    let rm = load(&root);
    assert_eq!(rm.get_target("t".to_string()).unwrap().cmds[0], "gcc -O2 -g main.c");
}

#[test]
fn environment_is_the_fallback() {
    let root = map_of(vec![("t", target(s("cd $(HOME)"), None))]);
    let env = vec![("HOME".to_string(), "/u/x".to_string())];
    let rm = RMake::new(&root, &env, &vec![]).unwrap();
    assert_eq!(rm.get_target("t".to_string()).unwrap().cmds, strings(&["cd /u/x"]));
}

#[test]
fn variable_shadows_environment() {
    let root = map_of(vec![("HOME", s("/home/v")), ("t", target(s("cd $(HOME)"), None))]);
    let env = vec![("HOME".to_string(), "/u/x".to_string())];
    let rm = RMake::new(&root, &env, &vec![]).unwrap();
    assert_eq!(rm.get_target("t".to_string()).unwrap().cmds, strings(&["cd /home/v"]));
}

#[test]
fn unknown_name_expands_to_nothing() {
    let r = find_and_replace("x$(NOPE)y".to_string(), &vec![], &no_env(), &vec![]).unwrap();
    assert_eq!(r, "xy");
}

#[test]
fn cycle_of_dependencies_terminates() {
    let root = map_of(vec![
        ("a", target(s("A"), Some(s("b")))),
        ("b", target(s("B"), Some(s("a")))),
    ]);
    let rm = load(&root);
    assert_eq!(rm.run("a".to_string()).unwrap(), strings(&["B", "A"]));
}

#[test]
fn self_dependency_is_emitted_once() {
    let root = map_of(vec![("a", target(s("A"), Some(s("a"))))]);
    let rm = load(&root);
    assert_eq!(rm.run("a".to_string()).unwrap(), strings(&["A"]));
}

#[test]
fn chain_is_deterministic() {
    let root = map_of(vec![
        ("a", target(s("A"), None)),
        ("b", target(s("B"), Some(seq_of(&["a", "zz"])))),
        ("c", target(s("C1\nC2"), Some(seq_of(&["b", "a"])))),
    ]);
    let rm = load(&root);
    let goal = rm.get_target("c".to_string()).unwrap().clone();
    let first = rm.chain_commands(goal.clone());
    let second = rm.chain_commands(goal);
    assert_eq!(first, second);
    assert_eq!(first, strings(&["A", "B", "C1", "C2"]));
}

#[test]
fn each_target_contributes_once() {
    let root = map_of(vec![
        ("a", target(seq_of(&["A1", "A2"]), None)),
        ("b", target(s("B"), Some(seq_of(&["a", "a"])))),
        ("c", target(s("C"), Some(seq_of(&["a", "b", "a"])))),
    ]);
    let rm = load(&root);
    assert_eq!(rm.run("c".to_string()).unwrap(), strings(&["A1", "A2", "B", "C"]));
}

#[test]
fn dependencies_precede_dependents() {
    let root = map_of(vec![
        ("x", target(s("X"), Some(seq_of(&["y", "z"])))),
        ("y", target(s("Y"), Some(s("z")))),
        ("z", target(s("Z"), None)),
    ]);
    let rm = load(&root);
    assert_eq!(rm.run("x".to_string()).unwrap(), strings(&["Z", "Y", "X"]));
}

#[test]
fn single_line_scalar_and_sequence_give_same_target() {
    let a = RMakeTarget::from_mapping("t".to_string(), &vec![(s("dep"), s("u")), (s("cmd"), s("make all"))])
        .unwrap();
    let b = RMakeTarget::from_mapping(
        "t".to_string(),
        &vec![(s("dep"), s("u")), (s("cmd"), seq_of(&["make all"]))],
    )
    .unwrap();
    assert_eq!(a, b);
}

#[test]
fn no_form_of_a_defined_variable_is_left() {
    let root = map_of(vec![
        ("A", s("$(B)$(B)")),
        ("B", s("b")),
        ("t", target(seq_of(&["$(A)", "[$(B)]"]), None)),
    ]);
    let rm = load(&root);
    assert_eq!(rm.get_target("t".to_string()).unwrap().cmds, strings(&["bb", "[b]"]));
}

#[test]
fn cyclic_variables_end_in_nothing() {
    let vars = vec![
        RMakeVariable { name: "A".to_string(), value: "a$(B)".to_string() },
        RMakeVariable { name: "B".to_string(), value: "b$(A)".to_string() },
    ];
    let r = find_and_replace("<$(A)>".to_string(), &vars, &no_env(), &vec![]).unwrap();
    assert_eq!(r, "<ab>");
}

#[test]
fn empty_and_unclosed_forms_stay() {
    let r = find_and_replace("$() $(X".to_string(), &vec![], &no_env(), &vec![]).unwrap();
    assert_eq!(r, "$() $(X");
}

#[test]
fn body_runs_to_first_close() {
    let vars = vec![RMakeVariable { name: "X".to_string(), value: "x".to_string() }];
    let r = find_and_replace("$($(X))".to_string(), &vars, &no_env(), &vec![]).unwrap();
    assert_eq!(r, ")");
}

#[test]
fn blank_form_expands_to_nothing() {
    let r = find_and_replace("a$(  )b".to_string(), &vec![], &no_env(), &vec![]).unwrap();
    assert_eq!(r, "ab");
}

#[test]
fn shell_form_asks_for_its_output() {
    let r = find_and_replace("v=$(shell git rev-parse HEAD)".to_string(), &vec![], &no_env(), &vec![]);
    assert_eq!(r, Err(RMakeError::ShellOutputNeeded(strings(&["git", "rev-parse", "HEAD"]))));
}

#[test]
fn shell_form_uses_recorded_output() {
    let shells = vec![ShellOutput { command: strings(&["echo", "hi"]), output: "hi\n".to_string() }];
    let r = find_and_replace("[$(shell echo hi)]".to_string(), &vec![], &no_env(), &shells).unwrap();
    assert_eq!(r, "[hi\n]");
}

#[test]
fn wildcard_form_is_reserved() {
    let a = find_and_replace("[$(wildcard *.c)]".to_string(), &vec![], &no_env(), &vec![]).unwrap();
    let b = find_and_replace("[$(whildcard *.c)]".to_string(), &vec![], &no_env(), &vec![]).unwrap();
    assert_eq!(a, "[]");
    assert_eq!(b, "[]");
}

#[test]
fn unknown_meta_command_fails() {
    let r = find_and_replace("$(patsubst a b)".to_string(), &vec![], &no_env(), &vec![]);
    assert_eq!(r, Err(RMakeError::UnknownMeta("patsubst".to_string())));
}

#[test]
fn core_command_keywords() {
    assert_eq!(RMakeCoreCommand::from_str("shell"), Ok(RMakeCoreCommand::Shell));
    assert_eq!(RMakeCoreCommand::from_str("wildcard"), Ok(RMakeCoreCommand::Wildcard));
    assert_eq!(RMakeCoreCommand::from_str("whildcard"), Ok(RMakeCoreCommand::Wildcard));
    assert_eq!(RMakeCoreCommand::from_str("ls"), Err("ls is not supported yet!".to_string()));
}

#[test]
fn root_must_be_a_mapping() {
    assert_eq!(RMake::new(&seq_of(&["a"]), &no_env(), &vec![]), Err(RMakeError::Shape));
}

#[test]
fn target_without_cmd_fails() {
    let root = map_of(vec![("t", map_of(vec![("dep", s("u"))]))]);
    assert_eq!(RMake::new(&root, &no_env(), &vec![]), Err(RMakeError::MissingCmd("t".to_string())));
}

#[test]
fn non_string_command_fails() {
    let root = map_of(vec![(
        "t",
        map_of(vec![("cmd", YamlValue::Sequence(vec![s("ok"), YamlValue::Other]))]),
    )]);
    assert_eq!(RMake::new(&root, &no_env(), &vec![]), Err(RMakeError::Shape));
    let root = map_of(vec![("t", map_of(vec![("cmd", YamlValue::Other)]))]);
    assert_eq!(RMake::new(&root, &no_env(), &vec![]), Err(RMakeError::Shape));
}

#[test]
fn build_without_targets_fails() {
    let root = map_of(vec![("CC", s("gcc")), ("N", YamlValue::Other)]);
    assert_eq!(RMake::new(&root, &no_env(), &vec![]), Err(RMakeError::EmptyBuild));
}

#[test]
fn unknown_goal_fails() {
    let root = map_of(vec![("a", target(s("A"), None))]);
    let rm = load(&root);
    assert_eq!(rm.run("b".to_string()), Err(RMakeError::UnknownGoal("b".to_string())));
}

#[test]
fn dependency_forms_are_normalised() {
    let t = RMakeTarget::from_mapping(
        "t".to_string(),
        &vec![
            (s("dep"), YamlValue::Sequence(vec![s("a"), YamlValue::Other, s("b")])),
            (s("cmd"), s("x")),
        ],
    )
    .unwrap();
    assert_eq!(t.deps, strings(&["a", "b"]));
    let t = RMakeTarget::from_mapping("t".to_string(), &vec![(s("dep"), YamlValue::Other), (s("cmd"), s("x"))])
        .unwrap();
    assert!(t.deps.is_empty());
}

#[test]
fn dangling_dependency_is_skipped() {
    let root = map_of(vec![("a", target(s("A"), Some(seq_of(&["ghost", "b"])))), ("b", target(s("B"), None))]);
    let rm = load(&root);
    assert_eq!(rm.run("a".to_string()).unwrap(), strings(&["B", "A"]));
}

#[test]
fn variables_and_targets_are_told_apart() {
    let root = map_of(vec![
        ("V", s("v")),
        ("n", YamlValue::Other),
        ("t", target(s("T"), Some(s("u")))),
        ("u", target(s("U"), None)),
    ]);
    let rm = load(&root);
    assert_eq!(rm.targets.len(), 2);
    assert_eq!(rm.variables, vec![RMakeVariable { name: "V".to_string(), value: "v".to_string() }]);
    assert_eq!(rm.count_deps(), 1);
    assert!(rm.get_target("V".to_string()).is_none());
}

#[test]
fn variable_from_value() {
    let v = RMakeVariable::from_value("X".to_string(), &s("1")).unwrap();
    assert_eq!(v.name, "X");
    assert_eq!(v.value, "1");
    assert!(RMakeVariable::from_value("X".to_string(), &YamlValue::Other).is_none());
}

#[test]
fn target_from_global() {
    let m = vec![(s("t"), target(s("T"), None)), (s("v"), s("x"))];
    let t = RMakeTarget::from_global("t".to_string(), &m).unwrap();
    assert_eq!(t.cmds, strings(&["T"]));
    assert_eq!(RMakeTarget::from_global("v".to_string(), &m), Err(RMakeError::Shape));
    assert_eq!(RMakeTarget::from_global("w".to_string(), &m), Err(RMakeError::UnknownGoal("w".to_string())));
}

#[test]
fn words_and_lines() {
    assert_eq!(split_words("  shell\tls  -l\n"), strings(&["shell", "ls", "-l"]));
    assert!(split_words(" \t ").is_empty());
    assert_eq!(split_lines("a\n\nb"), strings(&["a", "", "b"]));
    assert_eq!(split_lines(""), strings(&[""]));
}

#[test]
fn expand_commands_rewrites_in_place() {
    let vars = vec![RMakeVariable { name: "O".to_string(), value: "out".to_string() }];
    let mut t = RMakeTarget { name: "t".to_string(), deps: vec![], cmds: strings(&["mkdir $(O)", "ls"]) };
    t.expand_commands(&vars, &no_env(), &vec![]).unwrap();
    assert_eq!(t.cmds, strings(&["mkdir out", "ls"]));
}

#[test]
fn three_cycle_terminates() {
    let root = map_of(vec![
        ("a", target(s("A"), Some(s("b")))),
        ("b", target(s("B"), Some(s("c")))),
        ("c", target(s("C"), Some(seq_of(&["a", "b"])))),
    ]);
    let rm = load(&root);
    assert_eq!(rm.run("b".to_string()).unwrap(), strings(&["A", "C", "B"]));
}

#[test]
fn adjacent_text_can_form_a_new_reference() {
    let vars = vec![
        RMakeVariable { name: "E".to_string(), value: "".to_string() },
        RMakeVariable { name: "CC".to_string(), value: "gcc".to_string() },
    ];
    let r = find_and_replace("$$(E)(CC)".to_string(), &vars, &no_env(), &vec![]).unwrap();
    assert_eq!(r, "$(CC)");
}

#[test]
fn environment_value_is_not_expanded_again() {
    let vars = vec![RMakeVariable { name: "CC".to_string(), value: "gcc".to_string() }];
    let env = vec![("X".to_string(), "$(CC)".to_string())];
    let r = find_and_replace("$(X)".to_string(), &vars, &env, &vec![]).unwrap();
    assert_eq!(r, "$(CC)");
}

#[test]
fn empty_cmd_sequence_fails() {
    let root = map_of(vec![("t", map_of(vec![("cmd", YamlValue::Sequence(vec![]))]))]);
    assert_eq!(RMake::new(&root, &no_env(), &vec![]), Err(RMakeError::Shape));
    let r = RMakeTarget::from_mapping("t".to_string(), &vec![(s("cmd"), YamlValue::Sequence(vec![]))]);
    assert_eq!(r, Err(RMakeError::Shape));
}

#[test]
fn later_variable_replaces_earlier_target() {
    let root = map_of(vec![("x", target(s("X"), None)), ("y", target(s("Y"), None)), ("x", s("v"))]);
    let rm = load(&root);
    assert_eq!(rm.targets.len(), 1);
    assert_eq!(rm.targets[0].name, "y");
    assert_eq!(rm.variables, vec![RMakeVariable { name: "x".to_string(), value: "v".to_string() }]);
}

#[test]
fn later_target_replaces_earlier_variable() {
    let root = map_of(vec![("x", s("v")), ("x", target(s("X"), None))]);
    let rm = load(&root);
    assert!(rm.variables.is_empty());
    assert_eq!(rm.run("x".to_string()).unwrap(), strings(&["X"]));
}

#[test]
fn chain_length_is_bounded() {
    let root = map_of(vec![
        ("a", target(seq_of(&["A1", "A2"]), Some(seq_of(&["b", "a"])))),
        ("b", target(s("B"), Some(seq_of(&["a", "b"])))),
    ]);
    let rm = load(&root);
    let out = rm.run("a".to_string()).unwrap();
    assert_eq!(out, strings(&["B", "A1", "A2"]));
    assert!(out.len() <= 3);
}
