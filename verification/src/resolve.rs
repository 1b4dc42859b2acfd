//! Finding the aliases that stand for a typed command line.

use crate::alias::{alias_views, Alias, AliasError, AliasView, Command, NewType};
use crate::cycles::{cycle_free, lemma_filter_next, lemma_valid_aliases, valid_aliases};
use crate::expansion::{expand, expand_command, lemma_expansion_ends};
use crate::lookup::{lemma_lookup, lookup, position_of};
use crate::text::{
    drop_last_word, first_word, has_word, join, lemma_first_word_of_splice,
    lemma_without_last_word_is_shorter, normalize, without_last_word, words,
};
use crate::validation::filter_invalid_aliases;
use vstd::prelude::*;

verus! {

/// `command` expanded over `aliases`, with as many replacements in a row as
/// there are aliases. Where that is not enough, which is never the case for
/// aliases without cycles, the command itself.
pub open spec fn fully_expanded(aliases: Seq<AliasView>, command: Seq<char>) -> Seq<char> {
    match expand(aliases, command, aliases.len()) {
        Some(text) => text,
        None => command,
    }
}

/// `aliases`, each with its command expanded over all of them.
pub open spec fn expand_all(aliases: Seq<AliasView>) -> Seq<AliasView> {
    Seq::new(
        aliases.len(),
        |at: int|
            AliasView {
                name: aliases[at].name,
                command: fully_expanded(aliases, aliases[at].command),
            },
    )
}

/// Tells of an alias whether its command is `command`, character by character.
pub open spec fn stands_for(command: Seq<char>) -> spec_fn(AliasView) -> bool {
    |alias: AliasView| alias.command == command
}

/// The aliases whose command is `command`, in their order.
pub open spec fn standing_for(aliases: Seq<AliasView>, command: Seq<char>) -> Seq<AliasView> {
    aliases.filter(stands_for(command))
}

/// The aliases whose command is the longest leading part of `command` that
/// is the command of any alias: first `command` as it is, then without its
/// last word, with single blanks between the words that are left, and so on
/// until nothing is left.
pub open spec fn longest_match(aliases: Seq<AliasView>, command: Seq<char>) -> Seq<AliasView>
    decreases command.len(),
{
    if command.len() == 0 {
        Seq::empty()
    } else if standing_for(aliases, command).len() > 0 {
        standing_for(aliases, command)
    } else {
        proof {
            lemma_without_last_word_is_shorter(command);
        }
        longest_match(aliases, without_last_word(command))
    }
}

/// The aliases that stand for `query`. The aliases that can be worked with
/// are taken, each with its command expanded; the words of the query, with
/// single blanks between them, are expanded over these; and the aliases are
/// given whose command is the longest leading part of the result.
pub open spec fn best_match(aliases: Seq<AliasView>, query: Seq<char>) -> Seq<AliasView> {
    if aliases.len() == 0 {
        Seq::empty()
    } else {
        let expanded = expand_all(valid_aliases(aliases));
        longest_match(expanded, fully_expanded(expanded, join(words(query))))
    }
}

/// Every command of `aliases` has a word.
pub open spec fn all_worded(aliases: Seq<AliasView>) -> bool {
    forall|at: int| 0 <= at < aliases.len() ==> has_word((#[trigger] aliases[at]).command)
}

/// Where every alias has a command with a word, the expansion of a command
/// with a word has a word, and its first word names no alias: nothing is
/// left to expand in it.
pub proof fn lemma_expansion_is_final(aliases: Seq<AliasView>, command: Seq<char>, depth: nat)
    requires
        all_worded(aliases),
        has_word(command),
        expand(aliases, command, depth) is Some,
    ensures
        has_word(expand(aliases, command, depth)->Some_0),
        lookup(aliases, first_word(expand(aliases, command, depth)->Some_0)) is None,
    decreases depth,
{
    match lookup(aliases, first_word(command)) {
        None => {},
        Some(at) => {
            lemma_lookup(aliases, first_word(command));
            let inner = aliases[at].command;
            lemma_expansion_is_final(aliases, inner, (depth - 1) as nat);
            lemma_first_word_of_splice(
                command,
                expand(aliases, inner, (depth - 1) as nat)->Some_0,
            );
        },
    }
}

/// Lists that agree on the names agree on what a name finds.
pub proof fn lemma_same_names_same_lookup(
    aliases: Seq<AliasView>,
    others: Seq<AliasView>,
    name: Seq<char>,
    from: int,
)
    requires
        aliases.len() == others.len(),
        forall|at: int|
            0 <= at < aliases.len() ==> (#[trigger] aliases[at]).name == others[at].name,
        0 <= from <= aliases.len(),
    ensures
        position_of(aliases, name, from) == position_of(others, name, from),
    decreases aliases.len() - from,
{
    if from < aliases.len() {
        assert(aliases[from].name == others[from].name);
        if aliases[from].name != name {
            lemma_same_names_same_lookup(aliases, others, name, from + 1);
        }
    }
}

/// Over the aliases that can be worked with, each with its command
/// expanded, every command expands: at most its first word is replaced.
pub proof fn lemma_query_expands(aliases: Seq<AliasView>, query: Seq<char>)
    ensures
        expand(
            expand_all(valid_aliases(aliases)),
            query,
            expand_all(valid_aliases(aliases)).len(),
        ) is Some,
{
    let working = valid_aliases(aliases);
    let expanded = expand_all(working);
    lemma_valid_aliases(aliases);
    if has_word(query) {
        let head = first_word(query);
        lemma_same_names_same_lookup(expanded, working, head, 0);
        match lookup(expanded, head) {
            None => {},
            Some(at) => {
                lemma_lookup(expanded, head);
                lemma_expansion_ends(working, working[at].command);
                lemma_expansion_is_final(working, working[at].command, working.len());
                let inner = expanded[at].command;
                assert(inner == expand(working, working[at].command, working.len())->Some_0);
                lemma_same_names_same_lookup(expanded, working, first_word(inner), 0);
                assert(expand(expanded, inner, (expanded.len() - 1) as nat) == Some(inner));
            },
        }
    }
}

/// Without aliases, or for a query without a word, nothing is found.
pub proof fn lemma_nothing_for_nothing(aliases: Seq<AliasView>, query: Seq<char>)
    requires
        aliases.len() == 0 || !has_word(query),
    ensures
        best_match(aliases, query) == Seq::<AliasView>::empty(),
{
    if aliases.len() > 0 {
        assert(words(query).len() == 0);
        assert(join(words(query)) == Seq::<char>::empty());
    }
}

/// The aliases whose command is `command`, in their order.
pub fn matching(aliases: &Vec<Alias>, command: &Command) -> (found: Vec<Alias>)
    ensures
        alias_views(found@) == standing_for(alias_views(aliases@), command@),
{
    let ghost views = alias_views(aliases@);
    let mut found: Vec<Alias> = Vec::new();
    let mut at: usize = 0;
    assert(views.take(0).filter(stands_for(command@)) =~= Seq::<AliasView>::empty()) by {
        reveal(Seq::filter);
    }
    while at < aliases.len()
        invariant
            views == alias_views(aliases@),
            at <= aliases@.len(),
            alias_views(found@) == views.take(at as int).filter(stands_for(command@)),
        decreases aliases@.len() - at,
    {
        proof {
            lemma_filter_next(views, stands_for(command@), at as int);
        }
        assert(aliases[at as int].command@ == views[at as int].command);
        if *aliases[at].command.get() == *command.get() {
            let ghost before = found@;
            found.push(aliases[at].clone());
            assert(alias_views(found@) =~= alias_views(before).push(views[at as int]));
        }
        at += 1;
    }
    assert(views.take(aliases@.len() as int) =~= views);
    found
}

/// The aliases of `haystack` that stand for the command line `needle`, each
/// with its command expanded.
///
/// Aliases whose command has no word and aliases that are part of a cycle
/// take no part. Words at the end of the command line are left aside, one
/// by one, until what is left is the command of an alias; all aliases of
/// that command are given, in their order. The search never fails, and finds
/// nothing where there are no aliases or the command line has no word.
pub fn find_alias(haystack: &Vec<Alias>, needle: &str) -> (found: Result<Vec<Alias>, AliasError>)
    ensures
        found is Ok,
        alias_views(found->Ok_0@) == best_match(alias_views(haystack@), needle@),
        haystack@.len() == 0 || !has_word(needle@) ==> found->Ok_0@.len() == 0,
{
    proof {
        lemma_query_expands(alias_views(haystack@), join(words(needle@)));
        if haystack@.len() == 0 || !has_word(needle@) {
            lemma_nothing_for_nothing(alias_views(haystack@), needle@);
        }
    }
    if haystack.len() == 0 {
        let none: Vec<Alias> = Vec::new();
        assert(alias_views(none@) =~= Seq::<AliasView>::empty());
        return Ok(none);
    }
    let working = filter_invalid_aliases(haystack);
    let ghost working_views = alias_views(working@);
    let mut expanded: Vec<Alias> = Vec::new();
    let mut at: usize = 0;
    while at < working.len()
        invariant
            working_views == alias_views(working@),
            cycle_free(working_views),
            at <= working@.len(),
            alias_views(expanded@) == expand_all(working_views).take(at as int),
        decreases working@.len() - at,
    {
        assert(working[at as int].command@ == working_views[at as int].command);
        let command = match expand_command(&working, &working[at].command) {
            Ok(command) => command,
            Err(error) => {
                return Err(error);
            },
        };
        let ghost before = expanded@;
        let entry = Alias { name: working[at].name.clone(), command };
        assert(entry@ == expand_all(working_views)[at as int]);
        expanded.push(entry);
        assert(alias_views(expanded@) =~= alias_views(before).push(entry@));
        assert(expand_all(working_views).take(at + 1) =~= expand_all(working_views).take(
            at as int,
        ).push(entry@));
        at += 1;
    }
    assert(expand_all(working_views).take(working@.len() as int) =~= expand_all(working_views));
    let ghost expanded_views = alias_views(expanded@);
    let line = normalize(needle);
    let query = match Command::new(line.as_str()) {
        Ok(query) => query,
        Err(error) => {
            return Err(error);
        },
    };
    let mut command = match expand_command(&expanded, &query) {
        Ok(command) => command,
        Err(error) => {
            return Err(error);
        },
    };
    loop
        invariant
            expanded_views == alias_views(expanded@),
            longest_match(expanded_views, command@) == best_match(
                alias_views(haystack@),
                needle@,
            ),
        decreases command@.len(),
    {
        if command.get().as_str().is_empty() {
            let none: Vec<Alias> = Vec::new();
            assert(alias_views(none@) =~= Seq::<AliasView>::empty());
            return Ok(none);
        }
        let found = matching(&expanded, &command);
        if found.len() > 0 {
            return Ok(found);
        }
        proof {
            lemma_without_last_word_is_shorter(command@);
        }
        let shorter = drop_last_word(command.get().as_str());
        command = match Command::new(shorter.as_str()) {
            Ok(command) => command,
            Err(error) => {
                return Err(error);
            },
        };
    }
}

} // verus!
