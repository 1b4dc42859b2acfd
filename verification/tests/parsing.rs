use alias_helper::{render_all, Alias, AliasError, Command, Name, NewType};

fn alias(name: &str, command: &str) -> Alias {
    Alias {
        name: Name::new(name).unwrap(),
        command: Command::new(command).unwrap(),
    }
}

#[test]
fn a_definition_is_split_at_the_first_equals_sign() {
    assert_eq!(Alias::from("gb='git branch'"), Ok(alias("gb", "git branch")));
    assert_eq!(Alias::from("gb=\"git branch\""), Ok(alias("gb", "git branch")));
    assert_eq!(Alias::from("a=''"), Ok(alias("a", "")));
    assert_eq!(Alias::from("a='x=y'"), Ok(alias("a", "x=y")));
    assert_eq!(Alias::from("a='='"), Ok(alias("a", "=")));
    assert_eq!(Alias::from("_1='  '"), Ok(alias("_1", "  ")));
}

#[test]
fn a_quote_inside_the_command_belongs_to_it() {
    assert_eq!(Alias::from("a='it's'"), Ok(alias("a", "it's")));
    assert_eq!(Alias::from("a=\"say \"hi\"\""), Ok(alias("a", "say \"hi\"")));
    assert_eq!(Alias::from("a='\"'"), Ok(alias("a", "\"")));
}

#[test]
fn malformed_lines_are_parse_errors() {
    assert_eq!(Alias::from(""), Err(AliasError::ParseError("".to_string())));
    assert_eq!(
        Alias::from("no_equals_sign"),
        Err(AliasError::ParseError("no_equals_sign".to_string()))
    );
    assert_eq!(
        Alias::from("name=unquoted"),
        Err(AliasError::ParseError("name=unquoted".to_string()))
    );
    assert!(Alias::from("has space=\"x\"").is_err());
    assert_eq!(Alias::from("a="), Err(AliasError::ParseError("a=".to_string())));
    assert_eq!(Alias::from("a='"), Err(AliasError::ParseError("a='".to_string())));
    assert_eq!(Alias::from("a='x\""), Err(AliasError::ParseError("a='x\"".to_string())));
    assert_eq!(Alias::from("a=x'y'"), Err(AliasError::ParseError("a=x'y'".to_string())));
    assert_eq!(Alias::from("='x'"), Err(AliasError::ParseError("='x'".to_string())));
    assert_eq!(Alias::from("a-b='x'"), Err(AliasError::ParseError("a-b='x'".to_string())));
}

#[test]
fn a_line_break_in_the_command_is_a_parse_error() {
    assert_eq!(
        Alias::from("a='x\ny'"),
        Err(AliasError::ParseError("a='x\ny'".to_string()))
    );
}

#[test]
fn a_word_character_outside_ascii_is_an_invalid_name() {
    assert_eq!(
        Alias::from("\u{e9}='x'"),
        Err(AliasError::InvalidName("\u{e9}".to_string()))
    );
    assert_eq!(
        Name::new("\u{e9}"),
        Err(AliasError::InvalidName("\u{e9}".to_string()))
    );
}

#[test]
fn the_shape_check_decides_first() {
    assert!(Alias::is_valid("gb='git branch'"));
    assert!(Alias::is_valid("gb=\"git branch\""));
    assert!(!Alias::is_valid("gb='git branch\""));
    assert!(!Alias::is_valid("g b='git branch'"));
    assert!(!Alias::is_valid(""));
    assert_eq!(
        Alias::from_shaped("gb='git branch'", false),
        Err(AliasError::ParseError("gb='git branch'".to_string()))
    );
    assert_eq!(
        Alias::from_shaped("gb='git branch'", true),
        Ok(alias("gb", "git branch"))
    );
    assert_eq!(
        Alias::from_shaped("g b='x'", true),
        Err(AliasError::InvalidName("g b".to_string()))
    );
    assert_eq!(
        Alias::from_shaped("='x'", true),
        Err(AliasError::InvalidName("".to_string()))
    );
    assert_eq!(
        Alias::from_shaped("a='x", true),
        Err(AliasError::ParseError("a='x".to_string()))
    );
    assert_eq!(
        Alias::from_shaped("nothing here", true),
        Err(AliasError::ParseError("nothing here".to_string()))
    );
}

#[test]
fn names_hold_letters_digits_and_underscores() {
    assert_eq!(Name::new("aZ_09").unwrap().get(), "aZ_09");
    assert_eq!(Name::new(""), Err(AliasError::InvalidName("".to_string())));
    assert_eq!(Name::new("a b"), Err(AliasError::InvalidName("a b".to_string())));
    assert_eq!(Name::new("a-b"), Err(AliasError::InvalidName("a-b".to_string())));
    assert_eq!(Name::new("a\n"), Err(AliasError::InvalidName("a\n".to_string())));
    assert_eq!(Name::new("a="), Err(AliasError::InvalidName("a=".to_string())));
}

#[test]
fn commands_hold_anything() {
    assert_eq!(Command::new("").unwrap().get(), "");
    assert_eq!(Command::new(" a  b ").unwrap().get(), " a  b ");
    assert_eq!(Command::new("a").unwrap(), Command::new("a").unwrap());
    assert_ne!(Command::new("a").unwrap(), Command::new("a ").unwrap());
}

#[test]
fn an_alias_renders_between_single_quotes() {
    assert_eq!(alias("gb", "git branch").to_string(), "gb='git branch'");
    assert_eq!(alias("a", "").to_string(), "a=''");
    assert_eq!(Alias::from("a=\"b c\"").unwrap().to_string(), "a='b c'");
}

#[test]
fn aliases_render_on_one_line() {
    assert_eq!(render_all(&vec![]), "");
    assert_eq!(render_all(&vec![alias("gb", "git branch")]), "gb='git branch'");
    assert_eq!(
        render_all(&vec![alias("gb", "git branch"), alias("gitb", "git branch")]),
        "gb='git branch' gitb='git branch'"
    );
}

#[test]
fn a_rendered_alias_reads_back() {
    let samples = vec![
        alias("gb", "git branch"),
        alias("a", ""),
        alias("_x9", "echo \"hi\" && ls"),
        alias("q", "a=b"),
    ];
    for sample in samples {
        assert_eq!(Alias::from(&sample.to_string()), Ok(sample.clone()));
    }
}

#[test]
fn copies_are_equal_to_what_they_copy() {
    let source = alias("gb", "git branch");
    assert_eq!(source.clone(), source);
    assert_eq!(Name::from(&source), Name::new("gb").unwrap());
    assert_eq!(Command::from(&source), Command::new("git branch").unwrap());
    let error = AliasError::ExpandAlias("x".to_string());
    assert_eq!(error.clone(), error);
    assert_eq!(
        AliasError::ParseError("p".to_string()).clone(),
        AliasError::ParseError("p".to_string())
    );
    assert_eq!(
        AliasError::InvalidName("n".to_string()).clone(),
        AliasError::InvalidName("n".to_string())
    );
    assert_eq!(
        AliasError::InvalidCommand("c".to_string()).clone(),
        AliasError::InvalidCommand("c".to_string())
    );
}

#[test]
fn a_line_the_engine_gives_up_on_is_a_parse_error() {
    let line = format!("a='{}'", "x".repeat(2_000_000));
    assert!(!Alias::is_valid(&line));
    assert_eq!(Alias::from(&line), Err(AliasError::ParseError(line.clone())));
    assert_eq!(
        Alias::from_shaped(&line, true).unwrap().to_string(),
        line
    );
}
