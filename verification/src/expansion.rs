//! Replacing the first word of a command by what it stands for.

use crate::alias::{alias_views, Alias, AliasError, AliasErrorView, AliasView, Command, NewType};
use crate::cycles::{
    cycle_free, lemma_reach_add, lemma_reached_is_first, reach, refers_to_itself,
};
use crate::lookup::{find_named, lemma_lookup, lookup};
use crate::text::{
    chars_of, first_word, has_word, head_end, head_start, is_space, lemma_skip_spaces,
    lemma_skip_word, occurs_at, skip_spaces_at, skip_word_at, splice, substring,
};
use vstd::prelude::*;
use vstd::set_lib::{lemma_int_range, lemma_len_subset, set_int_range};

verus! {

/// `command` with its first word replaced, again and again, by the command
/// of the alias that the word names, as far as `depth` replacements in a
/// row allow: `None` where more would be needed.
///
/// A command without a word expands to the empty text. White space before
/// the first word and everything after it stay as they are.
pub open spec fn expand(aliases: Seq<AliasView>, command: Seq<char>, depth: nat) -> Option<
    Seq<char>,
>
    decreases depth,
{
    if !has_word(command) {
        Some(Seq::empty())
    } else {
        match lookup(aliases, first_word(command)) {
            None => Some(command),
            Some(at) => if depth == 0 {
                None
            } else {
                match expand(aliases, aliases[at].command, (depth - 1) as nat) {
                    None => None,
                    Some(expansion) => Some(
                        splice(command, head_start(command), head_end(command), expansion),
                    ),
                }
            },
        }
    }
}

/// The first word of a command stands in it right after the leading white
/// space, and nowhere before: to replace its first occurrence is to replace
/// the word itself.
pub proof fn lemma_first_word_occurs_first(command: Seq<char>)
    requires
        has_word(command),
    ensures
        occurs_at(command, first_word(command), head_start(command)),
        forall|at: int|
            0 <= at < head_start(command) ==> !occurs_at(command, first_word(command), at),
{
    lemma_skip_spaces(command, 0);
    lemma_skip_word(command, head_start(command));
    let word = first_word(command);
    assert(word.len() > 0);
    assert(word[0] == command[head_start(command)]);
    assert forall|at: int| 0 <= at < head_start(command) implies !occurs_at(
        command,
        word,
        at,
    ) by {
        if occurs_at(command, word, at) {
            assert(command.subrange(at, at + word.len())[0] == command[at]);
            assert(is_space(command[at]));
        }
    }
}

/// Among more positions than a list has entries, two are the same.
proof fn lemma_two_alike(visits: Seq<int>, count: int)
    requires
        0 <= count < visits.len(),
        forall|k: int| 0 <= k < visits.len() ==> 0 <= #[trigger] visits[k] < count,
    ensures
        exists|p: int, q: int| 0 <= p < q < visits.len() && visits[p] == visits[q],
{
    if visits.no_duplicates() {
        visits.unique_seq_to_set();
        lemma_int_range(0, count);
        assert(visits.to_set().subset_of(set_int_range(0, count))) by {
            assert forall|a: int| visits.to_set().contains(a) implies set_int_range(
                0,
                count,
            ).contains(a) by {
                let k = choose|k: int| 0 <= k < visits.len() && visits[k] == a;
                assert(0 <= visits[k] < count);
            }
        }
        lemma_len_subset(visits.to_set(), set_int_range(0, count));
    } else {
        let (i, j) = choose|i: int, j: int|
            0 <= i < visits.len() && 0 <= j < visits.len() && i != j && visits[i] == visits[j];
        if i < j {
            assert(visits[i] == visits[j]);
        } else {
            assert(visits[j] == visits[i]);
        }
    }
}

/// The chain of references that starts at the alias at `at` comes to an
/// alias that is part of a cycle, and so never ends.
pub open spec fn runs_into_cycle(aliases: Seq<AliasView>, at: int) -> bool {
    exists|steps: nat|
        (#[trigger] reach(aliases, at, steps)) matches Some(end) && refers_to_itself(aliases, end)
}

/// The first word of `command` names an alias whose chain of references
/// runs into a cycle: replacing first words would go on for ever.
pub open spec fn expands_forever(aliases: Seq<AliasView>, command: Seq<char>) -> bool {
    &&& has_word(command)
    &&& lookup(aliases, first_word(command)) matches Some(at) && runs_into_cycle(aliases, at)
}

/// A chain of as many references as there are aliases runs into a cycle.
pub proof fn lemma_long_chain_has_cycle(aliases: Seq<AliasView>, at: int)
    requires
        0 <= at < aliases.len(),
        reach(aliases, at, aliases.len()) is Some,
    ensures
        runs_into_cycle(aliases, at),
{
    let count = aliases.len();
    assert forall|k: nat| k <= count implies reach(aliases, at, k) is Some && 0 <= reach(
        aliases,
        at,
        k,
    )->Some_0 < count by {
        lemma_reach_add(aliases, at, k, (count - k) as nat);
        if k >= 1 {
            lemma_reached_is_first(aliases, at, k);
        }
    }
    let visits = Seq::new(count + 1, |k: int| reach(aliases, at, k as nat)->Some_0);
    assert forall|k: int| 0 <= k < visits.len() implies 0 <= #[trigger] visits[k] < count by {
        assert(reach(aliases, at, k as nat) is Some);
    }
    lemma_two_alike(visits, count as int);
    let (p, q) = choose|p: int, q: int| 0 <= p < q < visits.len() && visits[p] == visits[q];
    assert(reach(aliases, at, p as nat) == Some(visits[p]));
    assert(reach(aliases, at, q as nat) == Some(visits[q]));
    lemma_reach_add(aliases, at, p as nat, (q - p) as nat);
    assert(reach(aliases, visits[p], (q - p) as nat) == Some(visits[p]));
    assert(refers_to_itself(aliases, visits[p]));
}

/// Among aliases without cycles, no chain of references is as long as the
/// list of aliases.
pub proof fn lemma_chain_ends(aliases: Seq<AliasView>, at: int)
    requires
        cycle_free(aliases),
        0 <= at < aliases.len(),
    ensures
        reach(aliases, at, aliases.len()) is None,
{
    if reach(aliases, at, aliases.len()) is Some {
        lemma_long_chain_has_cycle(aliases, at);
        let steps = choose|steps: nat|
            (#[trigger] reach(aliases, at, steps)) matches Some(end) && refers_to_itself(
                aliases,
                end,
            );
        if steps >= 1 {
            lemma_reached_is_first(aliases, at, steps);
        }
    }
}

/// From an alias that is part of a cycle the references never end.
pub proof fn lemma_cycle_goes_on(aliases: Seq<AliasView>, at: int, steps: nat)
    requires
        refers_to_itself(aliases, at),
    ensures
        reach(aliases, at, steps) is Some,
    decreases steps,
{
    let around = choose|around: nat| around >= 1 && reach(aliases, at, around) == Some(at);
    if steps <= around {
        lemma_reach_add(aliases, at, steps, (around - steps) as nat);
    } else {
        lemma_cycle_goes_on(aliases, at, (steps - around) as nat);
        lemma_reach_add(aliases, at, around, (steps - around) as nat);
    }
}

/// A chain of references that runs into a cycle never ends.
pub proof fn lemma_chain_goes_on(aliases: Seq<AliasView>, at: int, steps: nat)
    requires
        runs_into_cycle(aliases, at),
    ensures
        reach(aliases, at, steps) is Some,
{
    let before = choose|before: nat|
        (#[trigger] reach(aliases, at, before)) matches Some(end) && refers_to_itself(
            aliases,
            end,
        );
    if steps <= before {
        lemma_reach_add(aliases, at, steps, (before - steps) as nat);
    } else {
        lemma_cycle_goes_on(aliases, reach(aliases, at, before)->Some_0, (steps - before) as nat);
        lemma_reach_add(aliases, at, before, (steps - before) as nat);
    }
}

/// An expansion that follows a chain of `depth` references does not end
/// within `depth` replacements in a row.
pub proof fn lemma_chain_is_unfinished(aliases: Seq<AliasView>, command: Seq<char>, depth: nat)
    requires
        has_word(command),
        lookup(aliases, first_word(command)) matches Some(at) && reach(aliases, at, depth) is Some,
    ensures
        expand(aliases, command, depth) is None,
    decreases depth,
{
    let at = lookup(aliases, first_word(command))->Some_0;
    if depth > 0 {
        lemma_chain_is_unfinished(aliases, aliases[at].command, (depth - 1) as nat);
    }
}

/// An expansion that does not end within `depth` replacements in a row
/// follows a chain of `depth` references.
pub proof fn lemma_unfinished_expansion(aliases: Seq<AliasView>, command: Seq<char>, depth: nat)
    requires
        expand(aliases, command, depth) is None,
    ensures
        has_word(command),
        lookup(aliases, first_word(command)) matches Some(at) && reach(aliases, at, depth) is Some,
    decreases depth,
{
    let at = lookup(aliases, first_word(command))->Some_0;
    if depth > 0 {
        lemma_unfinished_expansion(aliases, aliases[at].command, (depth - 1) as nat);
    }
}

/// Over aliases without cycles, every command expands within as many
/// replacements in a row as there are aliases.
pub proof fn lemma_expansion_ends(aliases: Seq<AliasView>, command: Seq<char>)
    requires
        cycle_free(aliases),
    ensures
        expand(aliases, command, aliases.len()) is Some,
{
    if expand(aliases, command, aliases.len()) is None {
        lemma_unfinished_expansion(aliases, command, aliases.len());
        lemma_lookup(aliases, first_word(command));
        lemma_chain_ends(aliases, lookup(aliases, first_word(command))->Some_0);
    }
}

/// As many replacements in a row as there are aliases are not enough for
/// a command exactly where replacing would go on for ever.
pub proof fn lemma_refused_iff_forever(aliases: Seq<AliasView>, command: Seq<char>)
    ensures
        expand(aliases, command, aliases.len()) is None <==> expands_forever(aliases, command),
{
    if expand(aliases, command, aliases.len()) is None {
        lemma_unfinished_expansion(aliases, command, aliases.len());
        lemma_lookup(aliases, first_word(command));
        lemma_long_chain_has_cycle(aliases, lookup(aliases, first_word(command))->Some_0);
    }
    if expands_forever(aliases, command) {
        lemma_chain_goes_on(
            aliases,
            lookup(aliases, first_word(command))->Some_0,
            aliases.len(),
        );
        lemma_chain_is_unfinished(aliases, command, aliases.len());
    }
}

/// `command` expanded with at most `depth` replacements in a row.
fn expand_within(aliases: &Vec<Alias>, command: &str, depth: usize) -> (expanded: Option<String>)
    ensures
        match expanded {
            Some(text) => expand(alias_views(aliases@), command@, depth as nat) == Some(text@),
            None => expand(alias_views(aliases@), command@, depth as nat) is None,
        },
    decreases depth,
{
    let chars = chars_of(command);
    let start = skip_spaces_at(&chars, 0);
    if start >= chars.len() {
        return Some(String::new());
    }
    let end = skip_word_at(&chars, start);
    let head = substring(command, start, end);
    match find_named(aliases, &head) {
        None => Some(String::from_str(command)),
        Some(at) => {
            if depth == 0 {
                return None;
            }
            let inner = aliases[at].command.get().as_str();
            assert(inner@ == alias_views(aliases@)[at as int].command);
            match expand_within(aliases, inner, depth - 1) {
                None => None,
                Some(expansion) => {
                    let mut text = substring(command, 0, start);
                    text.append(expansion.as_str());
                    text.append(command.substring_char(end, chars.len()));
                    Some(text)
                },
            }
        },
    }
}

/// Expands `command`: as long as its first word names an alias, the word is
/// replaced by the command of the first alias of that name, itself expanded.
///
/// The number of replacements in a row is limited to the number of aliases.
/// That is enough unless the references from the first word run into a
/// cycle; a command for which they do is refused.
pub fn expand_command(aliases: &Vec<Alias>, command: &Command) -> (expanded: Result<
    Command,
    AliasError,
>)
    ensures
        match expand(alias_views(aliases@), command@, aliases@.len()) {
            Some(text) => expanded is Ok && expanded->Ok_0@ == text,
            None => expanded is Err && expanded->Err_0@ == AliasErrorView::ExpandAlias(command@),
        },
        expanded is Err <==> expands_forever(alias_views(aliases@), command@),
        cycle_free(alias_views(aliases@)) ==> expanded is Ok,
{
    proof {
        lemma_refused_iff_forever(alias_views(aliases@), command@);
        if cycle_free(alias_views(aliases@)) {
            lemma_expansion_ends(alias_views(aliases@), command@);
        }
    }
    match expand_within(aliases, command.get().as_str(), aliases.len()) {
        Some(text) => Command::new(text.as_str()),
        None => Err(AliasError::ExpandAlias(command.get().clone())),
    }
}

} // verus!
