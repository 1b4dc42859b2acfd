use alias_helper::resolve::matching;
use alias_helper::{expand_command, find_alias, render_all, Alias, Command, NewType};

fn parsed(lines: &[&str]) -> Vec<Alias> {
    let mut aliases = Vec::new();
    for line in lines {
        aliases.push(Alias::from(line).unwrap());
    }
    aliases
}

#[test]
fn an_exact_match_wins_over_a_shorter_one() {
    let aliases = parsed(&["gb='git branch'", "gba='git branch --all'"]);
    assert_eq!(find_alias(&aliases, "git branch"), Ok(parsed(&["gb='git branch'"])));
    assert_eq!(
        find_alias(&aliases, "git branch --all"),
        Ok(parsed(&["gba='git branch --all'"]))
    );
}

#[test]
fn trailing_words_are_dropped_until_something_matches() {
    let aliases = parsed(&["gb='git branch'", "gc='git checkout'"]);
    assert_eq!(
        find_alias(&aliases, "git checkout -b"),
        Ok(parsed(&["gc='git checkout'"]))
    );
    assert_eq!(
        find_alias(&aliases, "git checkout -b name --track origin"),
        Ok(parsed(&["gc='git checkout'"]))
    );
    assert_eq!(find_alias(&aliases, "git"), Ok(vec![]));
}

#[test]
fn all_aliases_of_one_command_are_found_in_their_order() {
    let aliases = parsed(&["gb='git branch'", "x='ls'", "gitb='git branch'"]);
    assert_eq!(
        find_alias(&aliases, "git branch"),
        Ok(parsed(&["gb='git branch'", "gitb='git branch'"]))
    );
    assert_eq!(
        render_all(&find_alias(&aliases, "git branch").unwrap()),
        "gb='git branch' gitb='git branch'"
    );
}

#[test]
fn a_match_carries_its_expanded_command() {
    let aliases = parsed(&["gb='git branch'", "gba='gb --all'"]);
    assert_eq!(
        expand_command(&aliases, &Command::new("gba").unwrap()),
        Ok(Command::new("git branch --all").unwrap())
    );
    let found = find_alias(&aliases, "git branch --all").unwrap();
    assert_eq!(found, parsed(&["gba='git branch --all'"]));
    assert_eq!(render_all(&found), "gba='git branch --all'");
}

#[test]
fn nothing_is_found_for_nothing() {
    let aliases = parsed(&["g='git'", "gb='git branch'"]);
    assert_eq!(find_alias(&aliases, ""), Ok(vec![]));
    assert_eq!(find_alias(&aliases, "   "), Ok(vec![]));
    assert_eq!(find_alias(&aliases, "\t\n"), Ok(vec![]));
    assert_eq!(find_alias(&vec![], "git"), Ok(vec![]));
    assert_eq!(find_alias(&vec![], "   "), Ok(vec![]));
}

#[test]
fn the_query_is_read_word_by_word() {
    let aliases = parsed(&["gb='git branch'"]);
    assert_eq!(
        find_alias(&aliases, "  git \t branch   -v "),
        Ok(parsed(&["gb='git branch'"]))
    );
}

#[test]
fn an_alias_in_the_query_is_expanded_before_matching() {
    let aliases = parsed(&["g='git'", "gb='g branch'", "gba='gb --all'"]);
    assert_eq!(
        find_alias(&aliases, "g branch --all -v"),
        Ok(parsed(&["gba='git branch --all'"]))
    );
    assert_eq!(
        find_alias(&aliases, "gb"),
        Ok(parsed(&["gb='git branch'"]))
    );
}

#[test]
fn only_the_first_occurrence_of_the_first_word_is_replaced() {
    let aliases = parsed(&["g='git'"]);
    assert_eq!(
        expand_command(&aliases, &Command::new("g log g").unwrap()),
        Ok(Command::new("git log g").unwrap())
    );
    assert_eq!(
        expand_command(&aliases, &Command::new("  g  log").unwrap()),
        Ok(Command::new("  git  log").unwrap())
    );
    assert_eq!(
        expand_command(&aliases, &Command::new("gg g").unwrap()),
        Ok(Command::new("gg g").unwrap())
    );
}

#[test]
fn a_command_without_a_word_expands_to_nothing() {
    let aliases = parsed(&["g='git'"]);
    assert_eq!(
        expand_command(&aliases, &Command::new("").unwrap()),
        Ok(Command::new("").unwrap())
    );
    assert_eq!(
        expand_command(&aliases, &Command::new("  \t ").unwrap()),
        Ok(Command::new("").unwrap())
    );
    assert_eq!(
        expand_command(&vec![], &Command::new(" ls ").unwrap()),
        Ok(Command::new(" ls ").unwrap())
    );
}

#[test]
fn the_first_alias_of_a_name_is_the_one_expanded() {
    let aliases = parsed(&["a='first'", "a='second'"]);
    assert_eq!(
        expand_command(&aliases, &Command::new("a x").unwrap()),
        Ok(Command::new("first x").unwrap())
    );
    let blank_first = parsed(&["a=''", "a='second'"]);
    assert_eq!(
        expand_command(&blank_first, &Command::new("a x").unwrap()),
        Ok(Command::new(" x").unwrap())
    );
}

#[test]
fn commands_match_character_by_character() {
    let aliases = parsed(&["a='git branch'", "b='git  branch'", "c='git branch'"]);
    assert_eq!(
        matching(&aliases, &Command::new("git branch").unwrap()),
        parsed(&["a='git branch'", "c='git branch'"])
    );
    assert_eq!(
        matching(&aliases, &Command::new("git").unwrap()),
        vec![] as Vec<Alias>
    );
}

#[test]
fn a_command_with_doubled_blanks_matches_only_as_it_is() {
    let aliases = parsed(&["x='git  branch'"]);
    assert_eq!(find_alias(&aliases, "git branch"), Ok(vec![]));
    assert_eq!(find_alias(&aliases, "x"), Ok(parsed(&["x='git  branch'"])));
    assert_eq!(find_alias(&aliases, "x -v"), Ok(vec![]));
}
