use alias_helper::{Alias, Command, Name, NewType};

#[test]
fn it_parses_valid_names() {
    Name::new("abc").unwrap();
    Name::new("123").unwrap();
    Name::new("a32").unwrap();
    Name::new("AcEf32").unwrap();
    Name::new("_a32").unwrap();
    Name::new("_a_32_").unwrap();
    Name::new("_Acse_32").unwrap();
}

#[test]
fn it_fails_to_parse_invalid_names() {
    Name::new("").unwrap_err();
    Name::new(" ").unwrap_err();
    Name::new("  ").unwrap_err();
    Name::new("$abc").unwrap_err();
    Name::new("hello world").unwrap_err();
    Name::new("(hey)").unwrap_err();
    Name::new("#duh").unwrap_err();
    Name::new("_Abc\\123").unwrap_err();
}

#[test]
fn it_parses_valid_commands() {
    Command::new("").unwrap();
    Command::new(" ").unwrap();
    Command::new("git").unwrap();
    Command::new("git branch").unwrap();
    Command::new("git branch -d").unwrap();
    Command::new("13$git 32jdasbranch _$jdasu").unwrap();
}

#[test]
fn it_parses_valid_aliases() {
    Alias::from("g='git'").unwrap();
    Alias::from("gb='git branch'").unwrap();
    Alias::from("gba='git branch --all'").unwrap();
    Alias::from("gc='git checkout'").unwrap();
    Alias::from("a=''").unwrap();
}

#[test]
fn it_fails_to_parse_invalid_aliases() {
    Alias::from("").unwrap_err();
    Alias::from("git branch --all").unwrap_err();
    Alias::from("a=").unwrap_err();
    Alias::from("bla bla='some blah'").unwrap_err();
}

fn check_name_from_alias(name: &str) {
    let alias = Alias::from(format!("{}='echo hello'", name).as_str()).unwrap();
    assert_eq!(Name::from(&alias), Name::new(name).unwrap());
}

#[test]
fn it_gets_name_from_alias() {
    check_name_from_alias("abc");
    check_name_from_alias("123");
    check_name_from_alias("a32");
    check_name_from_alias("AcEf32");
    check_name_from_alias("_a32");
    check_name_from_alias("_a_32_");
    check_name_from_alias("_Acse_32");
}

fn check_command_from_alias(command: &str) {
    let alias = Alias::from(format!("a='{}'", command).as_str()).unwrap();
    assert_eq!(Command::from(&alias), Command::new(command).unwrap());
}

#[test]
fn it_gets_command_from_alias() {
    check_command_from_alias("abc");
    check_command_from_alias("123");
    check_command_from_alias("a32");
    check_command_from_alias("AcEf32");
    check_command_from_alias("_a32");
    check_command_from_alias("_a_32_");
    check_command_from_alias("_Acse_32");
}
