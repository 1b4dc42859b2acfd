use alias_helper::validation;
use alias_helper::Alias;

fn faulty_aliases() -> Vec<Alias> {
    vec![
        Alias::from("a=''").unwrap(),
        Alias::from("aa='       '").unwrap(),
        // Self-reference
        Alias::from("b='b'").unwrap(),
        // Bi-self-reference
        Alias::from("c='d'").unwrap(),
        Alias::from("d='c'").unwrap(),
        // Triangle of self-references
        Alias::from("e='f -i'").unwrap(),
        Alias::from("f='g -l'").unwrap(),
        Alias::from("g='e -y'").unwrap(),
    ]
}

#[test]
fn it_filters_faulty_aliases() {
    let aliases: Vec<Alias> = faulty_aliases();

    assert_eq!(
        validation::filter_invalid_aliases(&aliases),
        vec![] as Vec<Alias>
    );
}

#[test]
fn validation_it_filters_faulty_aliases() {
    let aliases: Vec<Alias> = faulty_aliases();

    assert_eq!(
        validation::filter_invalid_aliases(&aliases),
        vec![] as Vec<Alias>
    );
}

#[test]
fn it_doesnt_filter_valid_aliases() {
    let aliases: Vec<Alias> = vec![
        Alias::from("g='git'").unwrap(),
        Alias::from("gb='git branch'").unwrap(),
        Alias::from("gba='git branch --all'").unwrap(),
    ];

    assert_eq!(validation::filter_invalid_aliases(&aliases), aliases);

    let aliases: Vec<Alias> = vec![
        Alias::from("gb='git branch'").unwrap(),
        Alias::from("gba='gb --all'").unwrap(),
    ];

    assert_eq!(validation::filter_invalid_aliases(&aliases), aliases);
}

#[test]
fn validation_it_doesnt_filter_valid_aliases() {
    let aliases: Vec<Alias> = vec![
        Alias::from("g='git'").unwrap(),
        Alias::from("gb='git branch'").unwrap(),
        Alias::from("gba='git branch --all'").unwrap(),
    ];

    assert_eq!(validation::filter_invalid_aliases(&aliases), aliases);

    let aliases: Vec<Alias> = vec![
        Alias::from("gb='git branch'").unwrap(),
        Alias::from("gba='gb --all'").unwrap(),
    ];

    assert_eq!(validation::filter_invalid_aliases(&aliases), aliases);
}
