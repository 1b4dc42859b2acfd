//! The references between aliases, and what it means for an alias to be
//! part of a cycle of them.

use crate::alias::AliasView;
use crate::lookup::{lemma_lookup, lemma_lookup_is, lookup};
use crate::text::{first_word, has_word};
use vstd::prelude::*;

verus! {

/// The alias that the alias at `at` refers to: the first alias named like
/// the first word of its command. `None` where the command has no word or
/// its first word names no alias.
pub open spec fn target(aliases: Seq<AliasView>, at: int) -> Option<int> {
    if has_word(aliases[at].command) {
        lookup(aliases, first_word(aliases[at].command))
    } else {
        None
    }
}

/// The alias that is reached from the one at `at` by following `steps`
/// references: `None` where the chain ends before.
pub open spec fn reach(aliases: Seq<AliasView>, at: int, steps: nat) -> Option<int>
    decreases steps,
{
    if steps == 0 {
        Some(at)
    } else {
        match target(aliases, at) {
            None => None,
            Some(next) => reach(aliases, next, (steps - 1) as nat),
        }
    }
}

/// The alias at `at` is part of a cycle: following one reference or more
/// leads from it back to it.
pub open spec fn refers_to_itself(aliases: Seq<AliasView>, at: int) -> bool {
    exists|steps: nat| steps >= 1 && reach(aliases, at, steps) == Some(at)
}

/// The alias that speaks for `name` is part of a cycle.
pub open spec fn is_cyclic_name(aliases: Seq<AliasView>, name: Seq<char>) -> bool {
    match lookup(aliases, name) {
        Some(at) => refers_to_itself(aliases, at),
        None => false,
    }
}

/// Tells of an alias whether its name is no part of a cycle in `aliases`.
pub open spec fn off_cycles(aliases: Seq<AliasView>) -> spec_fn(AliasView) -> bool {
    |alias: AliasView| !is_cyclic_name(aliases, alias.name)
}

/// Tells of an alias whether its command has a word.
pub open spec fn worded() -> spec_fn(AliasView) -> bool {
    |alias: AliasView| has_word(alias.command)
}

/// `aliases` in their order, without those whose name is part of a cycle.
pub open spec fn without_cycles(aliases: Seq<AliasView>) -> Seq<AliasView> {
    aliases.filter(off_cycles(aliases))
}

/// `aliases` in their order, without those whose command has no word.
pub open spec fn without_blanks(aliases: Seq<AliasView>) -> Seq<AliasView> {
    aliases.filter(worded())
}

/// The aliases that can be worked with: first those with a command without
/// a word are left out, then those that are part of a cycle among the rest.
pub open spec fn valid_aliases(aliases: Seq<AliasView>) -> Seq<AliasView> {
    without_cycles(without_blanks(aliases))
}

/// No alias of `aliases` is part of a cycle.
pub open spec fn cycle_free(aliases: Seq<AliasView>) -> bool {
    forall|at: int| 0 <= at < aliases.len() ==> !refers_to_itself(aliases, at)
}

/// A reference leads to an alias of the list.
pub proof fn lemma_target_in_range(aliases: Seq<AliasView>, at: int)
    ensures
        target(aliases, at) matches Some(next) ==> 0 <= next < aliases.len(),
{
    if has_word(aliases[at].command) {
        lemma_lookup(aliases, first_word(aliases[at].command));
    }
}

/// Following `first` references and then `more` is following `first + more`.
pub proof fn lemma_reach_add(aliases: Seq<AliasView>, at: int, first: nat, more: nat)
    ensures
        reach(aliases, at, first + more) == match reach(aliases, at, first) {
            Some(mid) => reach(aliases, mid, more),
            None => None,
        },
    decreases first,
{
    if first > 0 {
        match target(aliases, at) {
            Some(next) => {
                lemma_reach_add(aliases, next, (first - 1) as nat, more);
                assert((first + more - 1) as nat == (first - 1) as nat + more);
            },
            None => {},
        }
    }
}

/// Every member of `inside` is an alias of the list, and refers to a member
/// of `inside` if it refers to any alias.
pub open spec fn closed(aliases: Seq<AliasView>, inside: Set<int>) -> bool {
    forall|at: int| #[trigger]
        inside.contains(at) ==> {
            &&& 0 <= at < aliases.len()
            &&& target(aliases, at) matches Some(next) ==> inside.contains(next)
        }
}

/// From a member of a closed set only members of the set are reached.
pub proof fn lemma_stays_inside(aliases: Seq<AliasView>, inside: Set<int>, at: int, steps: nat)
    requires
        closed(aliases, inside),
        inside.contains(at),
    ensures
        reach(aliases, at, steps) matches Some(end) ==> inside.contains(end),
    decreases steps,
{
    if steps > 0 {
        match target(aliases, at) {
            Some(next) => {
                lemma_stays_inside(aliases, inside, next, (steps - 1) as nat);
            },
            None => {},
        }
    }
}

/// An alias outside a closed set that refers into the set, or to no alias,
/// is not part of a cycle.
pub proof fn lemma_never_returns(aliases: Seq<AliasView>, inside: Set<int>, at: int)
    requires
        closed(aliases, inside),
        !inside.contains(at),
        target(aliases, at) matches Some(next) ==> inside.contains(next),
    ensures
        !refers_to_itself(aliases, at),
{
    assert forall|steps: nat| steps >= 1 implies reach(aliases, at, steps) != Some(at) by {
        match target(aliases, at) {
            Some(next) => {
                lemma_stays_inside(aliases, inside, next, (steps - 1) as nat);
            },
            None => {},
        }
    }
}

/// `pred` judges an alias by its name alone.
pub open spec fn by_name(pred: spec_fn(AliasView) -> bool) -> bool {
    forall|a: AliasView, b: AliasView|
        #![trigger pred(a), pred(b)]
        a.name == b.name ==> pred(a) == pred(b)
}

/// Taking one more element into a filtered prefix appends it or not.
pub proof fn lemma_filter_next<A>(s: Seq<A>, pred: spec_fn(A) -> bool, at: int)
    requires
        0 <= at < s.len(),
    ensures
        s.take(at + 1).filter(pred) == if pred(s[at]) {
            s.take(at).filter(pred).push(s[at])
        } else {
            s.take(at).filter(pred)
        },
{
    reveal(Seq::filter);
    assert(s.take(at + 1).drop_last() =~= s.take(at));
}

/// What a filter keeps was there before.
pub proof fn lemma_filter_keeps<A>(s: Seq<A>, pred: spec_fn(A) -> bool, at: int)
    requires
        0 <= at < s.filter(pred).len(),
    ensures
        s.contains(s.filter(pred)[at]),
    decreases s.len(),
{
    reveal(Seq::filter);
    if s.len() > 0 {
        let front = s.drop_last();
        if at < front.filter(pred).len() {
            lemma_filter_keeps(front, pred, at);
            let k = choose|k: int| 0 <= k < front.len() && front[k] == front.filter(pred)[at];
            assert(s[k] == front[k]);
        } else {
            assert(s.filter(pred)[at] == s[s.len() - 1]);
        }
    }
}

/// Among the aliases that a judgement by name keeps, the first of a name is
/// the alias that was the first of that name before.
pub proof fn lemma_lookup_in_filter(
    aliases: Seq<AliasView>,
    pred: spec_fn(AliasView) -> bool,
    name: Seq<char>,
)
    requires
        by_name(pred),
    ensures
        lookup(aliases.filter(pred), name) matches Some(at) ==> (lookup(aliases, name) matches Some(
            origin,
        ) && aliases[origin] == aliases.filter(pred)[at]),
    decreases aliases.len(),
{
    reveal(Seq::filter);
    let kept = aliases.filter(pred);
    lemma_lookup(kept, name);
    lemma_lookup(aliases, name);
    if aliases.len() > 0 {
        let front = aliases.drop_last();
        let last = aliases.last();
        let kept_front = front.filter(pred);
        lemma_lookup_in_filter(front, pred, name);
        lemma_lookup(kept_front, name);
        lemma_lookup(front, name);
        match lookup(kept, name) {
            Some(at) => {
                if at < kept_front.len() {
                    assert(kept[at] == kept_front[at]);
                    assert forall|i: int| 0 <= i < at implies (#[trigger] kept_front[i]).name
                        != name by {
                        assert(kept[i] == kept_front[i]);
                    }
                    lemma_lookup_is(kept_front, name, at);
                    let origin = lookup(front, name)->Some_0;
                    assert(aliases[origin] == front[origin]);
                    assert forall|i: int| 0 <= i < origin implies (#[trigger] aliases[i]).name
                        != name by {
                        assert(aliases[i] == front[i]);
                    }
                    lemma_lookup_is(aliases, name, origin);
                } else {
                    assert(pred(last));
                    assert(kept == kept_front.push(last));
                    assert(at == kept_front.len());
                    assert forall|k: int| 0 <= k < aliases.len() - 1 implies (
                    #[trigger] aliases[k]).name != name by {
                        if aliases[k].name == name {
                            assert(front[k] == aliases[k]);
                            assert(pred(front[k]) == pred(last));
                            front.lemma_filter_contains(pred, k);
                            assert(kept_front.contains(front[k]));
                            let m = choose|m: int|
                                0 <= m < kept_front.len() && kept_front[m] == front[k];
                            assert(kept[m] == kept_front[m]);
                        }
                    }
                    lemma_lookup_is(aliases, name, aliases.len() - 1);
                }
            },
            None => {},
        }
    }
}

/// A chain of references among the aliases that a judgement by name keeps
/// is a chain of references among all of them.
pub proof fn lemma_reach_in_filter(
    aliases: Seq<AliasView>,
    pred: spec_fn(AliasView) -> bool,
    at: int,
    steps: nat,
)
    requires
        by_name(pred),
        0 <= at < aliases.filter(pred).len(),
        lookup(aliases.filter(pred), aliases.filter(pred)[at].name) == Some(at),
    ensures
        reach(aliases.filter(pred), at, steps) matches Some(end) ==> {
            &&& 0 <= end < aliases.filter(pred).len()
            &&& lookup(aliases.filter(pred), aliases.filter(pred)[end].name) == Some(end)
            &&& lookup(aliases, aliases.filter(pred)[at].name) matches Some(origin) && reach(
                aliases,
                origin,
                steps,
            ) == lookup(aliases, aliases.filter(pred)[end].name)
            &&& lookup(aliases, aliases.filter(pred)[end].name) is Some
        },
    decreases steps,
{
    let kept = aliases.filter(pred);
    lemma_lookup_in_filter(aliases, pred, kept[at].name);
    if steps > 0 {
        match target(kept, at) {
            Some(next) => {
                let head = first_word(kept[at].command);
                lemma_lookup(kept, head);
                lemma_lookup_in_filter(aliases, pred, head);
                lemma_reach_in_filter(aliases, pred, next, (steps - 1) as nat);
            },
            None => {},
        }
    }
}

/// An alias that is reached by following one reference or more is the first
/// of its name.
pub proof fn lemma_reached_is_first(aliases: Seq<AliasView>, at: int, steps: nat)
    requires
        steps >= 1,
    ensures
        reach(aliases, at, steps) matches Some(end) ==> 0 <= end < aliases.len() && lookup(
            aliases,
            aliases[end].name,
        ) == Some(end),
    decreases steps,
{
    match target(aliases, at) {
        Some(next) => {
            lemma_lookup(aliases, first_word(aliases[at].command));
            if steps > 1 {
                lemma_reached_is_first(aliases, next, (steps - 1) as nat);
            } else {
                assert(reach(aliases, next, 0) == Some(next));
            }
        },
        None => {},
    }
}

/// Leaving out the aliases whose name is part of a cycle leaves no cycle.
pub proof fn lemma_without_cycles_is_cycle_free(aliases: Seq<AliasView>)
    ensures
        cycle_free(without_cycles(aliases)),
{
    let pred = off_cycles(aliases);
    let kept = without_cycles(aliases);
    assert(by_name(pred));
    assert forall|at: int| 0 <= at < kept.len() implies !refers_to_itself(kept, at) by {
        if refers_to_itself(kept, at) {
            let steps = choose|steps: nat| steps >= 1 && reach(kept, at, steps) == Some(at);
            lemma_reached_is_first(kept, at, steps);
            lemma_reach_in_filter(aliases, pred, at, steps);
            let origin = lookup(aliases, kept[at].name)->Some_0;
            assert(reach(aliases, origin, steps) == Some(origin));
            assert(refers_to_itself(aliases, origin));
            assert(is_cyclic_name(aliases, kept[at].name));
            aliases.lemma_filter_pred(pred, at);
            assert(pred(kept[at]));
        }
    }
}

/// Every alias that can be worked with has a command with a word, and none
/// of them is part of a cycle.
pub proof fn lemma_valid_aliases(aliases: Seq<AliasView>)
    ensures
        cycle_free(valid_aliases(aliases)),
        forall|at: int|
            0 <= at < valid_aliases(aliases).len() ==> has_word(
                (#[trigger] valid_aliases(aliases)[at]).command,
            ),
{
    let worded_ones = without_blanks(aliases);
    let kept = valid_aliases(aliases);
    lemma_without_cycles_is_cycle_free(worded_ones);
    assert forall|at: int| 0 <= at < kept.len() implies has_word((#[trigger] kept[at]).command) by {
        lemma_filter_keeps(worded_ones, off_cycles(worded_ones), at);
        let k = choose|k: int| 0 <= k < worded_ones.len() && worded_ones[k] == kept[at];
        aliases.lemma_filter_pred(worded(), k);
    }
}

} // verus!
