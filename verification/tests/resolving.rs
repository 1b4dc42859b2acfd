use alias_helper::{expand_command, find_alias, Alias, Command, NewType};

#[test]
fn it_matches_only_the_exact_alias() {
    let aliases: Vec<Alias> = vec![
        Alias::from("g='git'").unwrap(),
        Alias::from("gb='git branch'").unwrap(),
        Alias::from("gba='git branch --all'").unwrap(),
    ];

    assert_eq!(
        find_alias(&aliases, "git"),
        Ok(vec![Alias::from("g='git'").unwrap()])
    );
    assert_eq!(
        find_alias(&aliases, "git branch"),
        Ok(vec![Alias::from("gb='git branch'").unwrap()])
    );
    assert_eq!(
        find_alias(&aliases, "git branch --all"),
        Ok(vec![Alias::from("gba='git branch --all'").unwrap()])
    );
}

#[test]
fn it_matches_substring_when_no_exact_alias_is_found() {
    let aliases: Vec<Alias> = vec![
        Alias::from("g='git'").unwrap(),
        Alias::from("gb='git branch'").unwrap(),
        Alias::from("gba='git branch --all'").unwrap(),
        Alias::from("gc='git checkout'").unwrap(),
    ];

    assert_eq!(
        find_alias(&aliases, "git branch -M branch_name"),
        Ok(vec![Alias::from("gb='git branch'").unwrap()])
    );
    assert_eq!(
        find_alias(&aliases, "git checkout -b"),
        Ok(vec![Alias::from("gc='git checkout'").unwrap()])
    );
}

#[test]
fn it_handles_empty_command() {
    let aliases: Vec<Alias> = vec![
        Alias::from("g='git'").unwrap(),
        Alias::from("gb='git branch'").unwrap(),
        Alias::from("gba='git branch --all'").unwrap(),
    ];
    assert_eq!(find_alias(&aliases, ""), Ok(vec![]));

    let aliases: Vec<Alias> = vec![];
    assert_eq!(find_alias(&aliases, ""), Ok(vec![]));

    let aliases: Vec<Alias> = vec![Alias::from("a=''").unwrap()];
    assert_eq!(find_alias(&aliases, ""), Ok(vec![]));
}

#[test]
fn it_matches_nothing_if_no_alias_is_found() {
    let aliases: Vec<Alias> = vec![];

    assert_eq!(
        find_alias(&aliases, "git checkout -b"),
        Ok(vec![] as Vec<Alias>)
    );

    let aliases: Vec<Alias> = vec![Alias::from("a=''").unwrap()];
    assert_eq!(
        find_alias(&aliases, "git checkout -b"),
        Ok(vec![] as Vec<Alias>)
    );
}

#[test]
fn it_matches_multiple_aliases() {
    let aliases: Vec<Alias> = vec![
        Alias::from("gb='git branch'").unwrap(),
        Alias::from("gitb='git branch'").unwrap(),
    ];

    assert_eq!(
        find_alias(&aliases, "git branch"),
        Ok(vec![
            Alias::from("gb='git branch'").unwrap(),
            Alias::from("gitb='git branch'").unwrap()
        ])
    );
}

#[test]
fn it_expands_alias() {
    let aliases: Vec<Alias> = vec![
        Alias::from("gb='git branch'").unwrap(),
        Alias::from("gc='git checkout'").unwrap(),
    ];

    assert_eq!(
        expand_command(&aliases, &Command::new("gb").unwrap()),
        Ok(Command::new("git branch").unwrap())
    );
    assert_eq!(
        expand_command(&aliases, &Command::new("gb --all").unwrap()),
        Ok(Command::new("git branch --all").unwrap())
    );
    assert_eq!(
        expand_command(&aliases, &Command::new("gc -b").unwrap()),
        Ok(Command::new("git checkout -b").unwrap())
    );
}

#[test]
fn it_fully_expands() {
    let aliases: Vec<Alias> = vec![
        Alias::from("gb='git branch'").unwrap(),
        Alias::from("gba='git branch --all'").unwrap(),
    ];

    assert_eq!(
        expand_command(&aliases, &Command::new("gba").unwrap()),
        Ok(Command::new("git branch --all").unwrap())
    );
    assert_eq!(
        expand_command(&aliases, &Command::new("gba --some_flag").unwrap()),
        Ok(Command::new("git branch --all --some_flag").unwrap())
    );
    assert_eq!(
        expand_command(&aliases, &Command::new("gb --all").unwrap()),
        Ok(Command::new("git branch --all").unwrap())
    );
    assert_eq!(
        expand_command(&aliases, &Command::new("gb --all --some_flag").unwrap()),
        Ok(Command::new("git branch --all --some_flag").unwrap())
    );
    assert_eq!(
        expand_command(&aliases, &Command::new("git branch --all").unwrap()),
        Ok(Command::new("git branch --all").unwrap())
    );
    assert_eq!(
        expand_command(
            &aliases,
            &Command::new("git branch --all --some_flag").unwrap()
        ),
        Ok(Command::new("git branch --all --some_flag").unwrap())
    );
}

#[test]
fn it_recursively_expands_alias() {
    let aliases: Vec<Alias> = vec![
        Alias::from("gb='git branch'").unwrap(),
        Alias::from("gba='gb --all'").unwrap(),
        Alias::from("gc='git checkout'").unwrap(),
        Alias::from("gcb='gc -b'").unwrap(),
    ];

    assert_eq!(
        expand_command(&aliases, &Command::new("gba").unwrap()),
        Ok(Command::new("git branch --all").unwrap())
    );
    assert_eq!(
        expand_command(&aliases, &Command::new("gba --some_flag").unwrap()),
        Ok(Command::new("git branch --all --some_flag").unwrap())
    );
    assert_eq!(
        expand_command(&aliases, &Command::new("gcb").unwrap()),
        Ok(Command::new("git checkout -b").unwrap())
    );
    assert_eq!(
        expand_command(&aliases, &Command::new("gcb branch_name").unwrap()),
        Ok(Command::new("git checkout -b branch_name").unwrap())
    );
}

#[test]
fn it_leaves_alias_as_is_when_nothing_to_expand() {
    let aliases: Vec<Alias> = vec![
        Alias::from("gb='git branch'").unwrap(),
        Alias::from("gba='gb --all'").unwrap(),
    ];

    assert_eq!(
        expand_command(&aliases, &Command::new("git branch --all").unwrap()),
        Ok(Command::new("git branch --all").unwrap())
    );
    assert_eq!(
        expand_command(&aliases, &Command::new("git checkout").unwrap()),
        Ok(Command::new("git checkout").unwrap())
    );
}

#[test]
fn it_matches_alias_using_another_alias_and_expands_it() {
    let aliases: Vec<Alias> = vec![
        Alias::from("gb='git branch'").unwrap(),
        Alias::from("gba='gb --all'").unwrap(),
    ];

    assert_eq!(
        find_alias(&aliases, "git branch --all"),
        Ok(vec![Alias::from("gba='git branch --all'").unwrap()])
    );
}
