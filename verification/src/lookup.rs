//! Finding an alias by its name.

use crate::alias::{alias_views, Alias, AliasView, NewType};
use vstd::prelude::*;

verus! {

/// The first position at or after `from` whose alias is named `name`, or
/// the length of `aliases` where none follows.
pub open spec fn position_of(aliases: Seq<AliasView>, name: Seq<char>, from: int) -> int
    decreases aliases.len() - from,
{
    if 0 <= from < aliases.len() && aliases[from].name != name {
        position_of(aliases, name, from + 1)
    } else {
        from
    }
}

/// The position of the first alias named `name`: where several aliases share
/// a name, the first one speaks for it.
pub open spec fn lookup(aliases: Seq<AliasView>, name: Seq<char>) -> Option<int> {
    let at = position_of(aliases, name, 0);
    if at < aliases.len() {
        Some(at)
    } else {
        None
    }
}

/// What `position_of` finds is named `name`, and nothing before it is.
pub proof fn lemma_position_of(aliases: Seq<AliasView>, name: Seq<char>, from: int)
    requires
        0 <= from <= aliases.len(),
    ensures
        from <= position_of(aliases, name, from) <= aliases.len(),
        forall|i: int|
            from <= i < position_of(aliases, name, from) ==> (#[trigger] aliases[i]).name != name,
        position_of(aliases, name, from) < aliases.len() ==> aliases[position_of(
            aliases,
            name,
            from,
        )].name == name,
    decreases aliases.len() - from,
{
    if from < aliases.len() && aliases[from].name != name {
        lemma_position_of(aliases, name, from + 1);
    }
}

/// `lookup` finds the first alias of the name, and finds none only where no
/// alias has it.
pub proof fn lemma_lookup(aliases: Seq<AliasView>, name: Seq<char>)
    ensures
        match lookup(aliases, name) {
            Some(at) => {
                &&& 0 <= at < aliases.len()
                &&& aliases[at].name == name
                &&& forall|i: int| 0 <= i < at ==> (#[trigger] aliases[i]).name != name
            },
            None => forall|i: int| 0 <= i < aliases.len() ==> (#[trigger] aliases[i]).name != name,
        },
{
    lemma_position_of(aliases, name, 0);
}

/// The first alias named `name` is the one at `at`.
pub proof fn lemma_lookup_is(aliases: Seq<AliasView>, name: Seq<char>, at: int)
    requires
        0 <= at < aliases.len(),
        aliases[at].name == name,
        forall|i: int| 0 <= i < at ==> (#[trigger] aliases[i]).name != name,
    ensures
        lookup(aliases, name) == Some(at),
{
    lemma_position_of(aliases, name, 0);
    let found = position_of(aliases, name, 0);
    if found < at {
        assert(aliases[found].name != name);
    } else if found > at {
        assert(aliases[at].name != name);
    }
}

/// The position of the first alias named `name`.
pub fn find_named(aliases: &Vec<Alias>, name: &String) -> (found: Option<usize>)
    ensures
        match found {
            Some(at) => lookup(alias_views(aliases@), name@) == Some(at as int),
            None => lookup(alias_views(aliases@), name@) is None,
        },
{
    let ghost views = alias_views(aliases@);
    let mut at: usize = 0;
    while at < aliases.len()
        invariant
            at <= aliases.len(),
            views == alias_views(aliases@),
            position_of(views, name@, at as int) == position_of(views, name@, 0),
        decreases aliases.len() - at,
    {
        if *aliases[at].name.get() == *name {
            assert(views[at as int].name == name@);
            return Some(at);
        }
        assert(views[at as int].name != name@);
        at += 1;
    }
    None
}

} // verus!
