use satz::actions::{
    absolutize, action_args, action_error, check_only, check_uv, command_line, display_path, is_python,
    lexical_normalize, lookup, missing_absolute, not_found, phase_rank, runnable, select, shell_quote, spawn_command,
    windows_runnable, Lookup, Mode, ResolvedAction,
};

fn strings(v: &[&str]) -> Vec<String> {
    v.iter().map(|s| s.to_string()).collect()
}

#[test]
fn a_python_action_is_spawned_through_uv_and_everything_else_directly() {
    let args = strings(&["--organization", "123456789012"]);

    let (program, argv) = spawn_command("/estate/scripts/seed.py", &args);
    assert_eq!(program, "uv");
    assert_eq!(argv, strings(&["run", "--script", "/estate/scripts/seed.py", "--organization", "123456789012"]));

    let (program, argv) = spawn_command("/estate/scripts/seed.sh", &args);
    assert_eq!(program, "/estate/scripts/seed.sh");
    assert_eq!(argv, args);

    // --check is the same construction with `args` only: whatever the launcher,
    // the execute_args are not in the vector.
    let (_, argv) = spawn_command("/estate/scripts/seed.py", &args[..1]);
    assert_eq!(argv, strings(&["run", "--script", "/estate/scripts/seed.py", "--organization"]));
}

#[test]
fn the_printed_command_line_is_the_one_that_is_spawned() {
    let root = absolutize("estate", "/work");
    assert_eq!(root, "/work/estate");
    let py = format!("{}/scripts/seed.py", root);
    let sh = format!("{}/scripts/seed.sh", root);
    let args = strings(&["--organization", "123456789012"]);

    assert_eq!(command_line(&py, &args, &root), "uv run --script scripts/seed.py --organization 123456789012");
    assert_eq!(command_line(&sh, &args, &root), "scripts/seed.sh --organization 123456789012");

    // …and what is spawned is that same file, at its full path.
    let (program, argv) = spawn_command(&py, &args);
    assert_eq!(program, "uv");
    assert_eq!(argv, vec!["run".to_string(), "--script".to_string(), py.clone(), "--organization".to_string(), "123456789012".to_string()]);
    assert_eq!(spawn_command(&sh, &args), (sh.clone(), args));
}

#[test]
fn without_uv_a_python_action_is_refused_instead_of_run_by_some_other_python() {
    let err = check_uv("scripts/seed.py", false).unwrap_err();
    assert!(err.contains("scripts/seed.py"), "{err}");
    assert!(err.contains("`uv`"), "{err}");
    assert!(err.contains("not on PATH"), "{err}");
    assert!(err.contains("python3"), "{err}");
    assert!(check_uv("scripts/seed.py", true).is_ok());
}

#[test]
fn on_windows_a_script_is_refused_and_an_executable_is_not() {
    let err = windows_runnable("presets/scc/scc-enable-all.sh").unwrap_err();
    assert!(err.contains("not a Windows executable") && err.contains("bash presets/scc/scc-enable-all.sh"), "{err}");
    assert!(windows_runnable("tools/enable.EXE").is_ok());
    assert!(windows_runnable("tools/enable.cmd").is_ok());
}

#[test]
fn quoting_keeps_a_plain_argument_plain_and_wraps_the_rest() {
    assert_eq!(shell_quote("--organization"), "--organization");
    assert_eq!(shell_quote("organizations/123"), "organizations/123");
    assert_eq!(shell_quote("two words"), "'two words'");
    assert_eq!(shell_quote(""), "''");
    assert_eq!(shell_quote("it's"), r"'it'\''s'");
}

fn action(name: &str, file: &str, run: &str, from_pack: bool) -> ResolvedAction {
    ResolvedAction {
        file: file.to_string(),
        name: name.to_string(),
        reason: "no provider resource".to_string(),
        run: run.to_string(),
        args: vec![],
        execute_args: vec![],
        phase: "after-apply".to_string(),
        from_pack,
        line: 1,
    }
}

#[test]
fn a_missing_script_names_every_place_that_was_looked_in() {
    let a = action("nope", "yaml/main.satz", "missing.sh", false);
    let includes = vec!["/nonexistent-satz-root".to_string(), "/elsewhere".to_string()];
    match lookup(&a.file, &a.run, "/nonexistent-satz-root", &includes) {
        Lookup::Search(candidates) => {
            assert_eq!(
                candidates,
                strings(&[
                    "/nonexistent-satz-root/yaml/missing.sh",
                    "/nonexistent-satz-root/yaml/missing.sh",
                    "/elsewhere/yaml/missing.sh"
                ])
            );
            let e = not_found(&a.run, &candidates);
            assert!(e.contains("missing.sh"), "{}", e);
            assert!(e.contains("Looked in"), "{}", e);
            // the root that is also an include dir is named once
            assert_eq!(
                e,
                "run = \"missing.sh\" not found. Looked in:\n      /nonexistent-satz-root/yaml/missing.sh\n      /elsewhere/yaml/missing.sh"
            );
        }
        other => panic!("expected a search, got {:?}", other),
    }
}

#[test]
fn a_pack_script_is_looked_for_beside_its_pack() {
    let a = action("scc", "presets/scc/pack.satz", "enable.sh", true);
    assert_eq!(lookup(&a.file, &a.run, "/estate", &[]), Lookup::Search(strings(&["/estate/presets/scc/enable.sh"])));
    assert_eq!(lookup("/abs/e.satz", "x.sh", "/estate", &[]), Lookup::Resolved("/abs/x.sh".to_string()));
    assert_eq!(lookup("e.satz", "/opt/x.sh", "/estate", &[]), Lookup::Absolute("/opt/x.sh".to_string()));
    assert_eq!(missing_absolute("/opt/x.sh"), "run = \"/opt/x.sh\" does not exist");
}

#[test]
fn before_apply_sorts_ahead_of_after_apply() {
    assert!(phase_rank("before-apply") < phase_rank("after-apply"));
}

#[test]
fn paths_are_cleaned_up_lexically() {
    assert_eq!(lexical_normalize("yaml/../scripts/x.sh"), "scripts/x.sh");
    assert_eq!(lexical_normalize("./a//b/./c/"), "a/b/c");
    assert_eq!(lexical_normalize("../a/.."), "..");
    assert_eq!(lexical_normalize("/../x"), "/../x");
    assert_eq!(lexical_normalize("a/.."), ".");
    assert_eq!(lexical_normalize("/"), "/");
    assert_eq!(absolutize("/etc/../tmp", "/work"), "/tmp");
    assert_eq!(display_path("/other/x.sh", "/estate"), "/other/x.sh");
    assert_eq!(display_path("/estate/bin/x", "/estate"), "bin/x");
}

#[test]
fn only_a_py_file_is_a_python_action() {
    assert!(is_python("scripts/seed.py"));
    assert!(is_python("scripts/SEED.PY"));
    assert!(!is_python("scripts/.py"));
    assert!(!is_python("scripts/seed.sh"));
    assert!(!is_python("scripts/py"));
    assert!(runnable("a.py", true, Err("not executable".into())).is_ok());
    assert_eq!(runnable("a.sh", true, Err("not executable".into())), Err("not executable".to_string()));
}

#[test]
fn a_run_takes_before_apply_first_and_counts_what_it_left_out() {
    let mut a = action("a", "e.satz", "a.sh", false);
    let mut b = action("b", "e.satz", "b.sh", true);
    let mut c = action("c", "e.satz", "c.sh", false);
    let d = action("d", "e.satz", "d.sh", false);
    c.phase = "before-apply".to_string();
    a.args = strings(&["--dry"]);
    a.execute_args = strings(&["--write"]);
    b.phase = "before-apply".to_string();
    let all = vec![a.clone(), b, c, d];

    let s = select(&all, None, None, false);
    assert_eq!(s.selected, vec![1, 2, 0, 3]);
    assert_eq!((s.skipped_pack, s.skipped_filter), (0, 0));

    let s = select(&all, None, None, true);
    assert_eq!(s.selected, vec![2, 0, 3]);
    assert_eq!((s.skipped_pack, s.skipped_filter), (1, 0));

    let only = strings(&["a", "c"]);
    let s = select(&all, Some(&only), Some("after-apply"), false);
    assert_eq!(s.selected, vec![0]);
    assert_eq!((s.skipped_pack, s.skipped_filter), (0, 3));

    assert!(check_only(&all, &only).is_ok());
    assert_eq!(
        check_only(&all, &strings(&["a", "zz", "yy"])).unwrap_err(),
        "--only \"zz\": no action by that name. Declared: a, b, c, d"
    );

    assert_eq!(action_args(&a, Mode::Check), strings(&["--dry"]));
    assert_eq!(action_args(&a, Mode::Execute), strings(&["--dry", "--write"]));
    assert_eq!(Mode::Execute.as_str(), "execute");
    assert_eq!(action_error(&a, "boom"), "action \"a\" (e.satz:1): boom");
}
