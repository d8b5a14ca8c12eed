use rustaska::Config;

fn args(entries: &[&str]) -> Vec<String> {
    entries.iter().map(|e| e.to_string()).collect()
}

#[test]
fn test_config_parser() {
    // happy path
    let args = vec![
        "0".to_owned(),
        "src".to_owned(),
        "num".to_owned(),
        "str".to_owned(),
        "err".to_owned(),
    ];

    let expected = Config {
        source_path: "src".to_owned(),
        numbers_path: "num".to_owned(),
        strings_path: "str".to_owned(),
        errors_path: "err".to_owned(),
    };
    let obtained = Config::build(args);

    assert_eq!(Ok(expected), obtained);

    // unhappy path 1 - too few args
    let args = vec![
        "0".to_owned(),
        "src".to_owned(),
        "num".to_owned(),
        "err".to_owned(),
    ];

    let obtained = Config::build(args);
    assert!(obtained.is_err());

    // unhappy path 2 - too many args
    let args = vec![
        "0".to_owned(),
        "src".to_owned(),
        "num".to_owned(),
        "str".to_owned(),
        "err".to_owned(),
        "sth".to_owned(),
    ];

    let obtained = Config::build(args);
    assert!(obtained.is_err());
}

#[test]
fn config_names_the_first_missing_path() {
    assert_eq!(Config::build(args(&[])), Err("Didn't get a source path"));
    assert_eq!(Config::build(args(&["0"])), Err("Didn't get a source path"));
    assert_eq!(
        Config::build(args(&["0", "a"])),
        Err("Didn't get a numbers destination path")
    );
    assert_eq!(
        Config::build(args(&["0", "a", "b"])),
        Err("Didn't get a strings destination path")
    );
    assert_eq!(
        Config::build(args(&["0", "a", "b", "c"])),
        Err("Didn't get an error file path")
    );
}

#[test]
fn config_refuses_a_sixth_entry() {
    assert_eq!(
        Config::build(args(&["0", "a", "b", "c", "d", "e"])),
        Err("Too many arguments")
    );
    assert_eq!(
        Config::build(args(&["0", "a", "b", "c", "d", "e", "f"])),
        Err("Too many arguments")
    );
}

#[test]
fn config_passes_over_the_program_name() {
    let cfg = Config::build(args(&["prog", "in.lst", "n.csv", "s.csv", "e.log"])).unwrap();
    assert_eq!(cfg.source_path, "in.lst");
    assert_eq!(cfg.numbers_path, "n.csv");
    assert_eq!(cfg.strings_path, "s.csv");
    assert_eq!(cfg.errors_path, "e.log");
}
