//! The removal of the aliases that cannot be worked with: those whose
//! command has no word, and those that are part of a cycle of references.

use crate::alias::{alias_views, Alias, AliasView, NewType};
use crate::cycles::{
    closed, cycle_free, is_cyclic_name, lemma_filter_next, lemma_never_returns, lemma_reach_add,
    lemma_target_in_range, lemma_without_cycles_is_cycle_free, off_cycles, reach,
    refers_to_itself, target, valid_aliases, without_cycles, worded,
};
use crate::lookup::{find_named, lemma_lookup, lookup};
use crate::text::{chars_of, skip_spaces_at, skip_word_at, substring};
use vstd::prelude::*;

verus! {

/// A position of the list as a mathematical integer.
pub open spec fn as_position(found: Option<usize>) -> Option<int> {
    match found {
        Some(at) => Some(at as int),
        None => None,
    }
}

/// `links` holds, for each alias in turn, the alias that it refers to.
pub open spec fn links_of(links: Seq<Option<usize>>, aliases: Seq<AliasView>) -> bool {
    &&& links.len() == aliases.len()
    &&& forall|at: int|
        0 <= at < aliases.len() ==> as_position(#[trigger] links[at]) == target(aliases, at)
}

/// `at` is none of the first `upto` entries of `path`.
spec fn off_path(path: Seq<usize>, upto: int, at: int) -> bool {
    forall|p: int| 0 <= p < upto && p < path.len() ==> #[trigger] path[p] != at
}

/// `at` is one of the entries of `path` from position `from` on.
spec fn on_path_from(path: Seq<usize>, from: int, at: int) -> bool {
    exists|p: int| from <= p < path.len() && #[trigger] path[p] == at
}

/// What is known between two walks. `seen` tells which aliases a walk has
/// passed, `cyclic` which of them were found to be part of a cycle: an alias
/// that was passed refers to one that was passed too, and is marked as cyclic
/// exactly where it is part of a cycle.
spec fn settled(aliases: Seq<AliasView>, seen: Seq<bool>, cyclic: Seq<bool>) -> bool {
    &&& seen.len() == aliases.len()
    &&& cyclic.len() == aliases.len()
    &&& forall|at: int|
        0 <= at < aliases.len() && #[trigger] seen[at] ==> (target(aliases, at) matches Some(next)
            ==> 0 <= next < aliases.len() && seen[next])
    &&& forall|at: int|
        0 <= at < aliases.len() && #[trigger] seen[at] ==> (cyclic[at] <==> refers_to_itself(
            aliases,
            at,
        ))
    &&& forall|at: int| 0 <= at < aliases.len() && #[trigger] cyclic[at] ==> seen[at]
}

/// What is known during a walk. `path` holds the aliases that the walk has
/// passed, each referring to the next one and the last one to `node`; all of
/// them differ. Of the aliases that earlier walks passed, all that `settled`
/// says is known.
spec fn walking(
    aliases: Seq<AliasView>,
    seen: Seq<bool>,
    cyclic: Seq<bool>,
    path: Seq<usize>,
    node: Option<usize>,
) -> bool {
    &&& seen.len() == aliases.len()
    &&& cyclic.len() == aliases.len()
    &&& forall|p: int|
        0 <= p < path.len() ==> (#[trigger] path[p]) < aliases.len() && seen[path[p] as int]
            && !cyclic[path[p] as int]
    &&& forall|p: int, q: int| 0 <= p < q < path.len() ==> #[trigger] path[p] != #[trigger] path[q]
    &&& forall|p: int|
        0 <= p < path.len() - 1 ==> target(aliases, (#[trigger] path[p]) as int) == Some(
            path[p + 1] as int,
        )
    &&& path.len() > 0 ==> target(aliases, path.last() as int) == as_position(node)
    &&& node matches Some(at) ==> at < aliases.len()
    &&& forall|at: int|
        0 <= at < aliases.len() && #[trigger] seen[at] && off_path(path, path.len() as int, at)
            ==> (target(aliases, at) matches Some(next) ==> 0 <= next < aliases.len()
            && seen[next] && off_path(path, path.len() as int, next))
    &&& forall|at: int|
        0 <= at < aliases.len() && #[trigger] seen[at] && off_path(path, path.len() as int, at)
            ==> (cyclic[at] <==> refers_to_itself(aliases, at))
    &&& forall|at: int| 0 <= at < aliases.len() && #[trigger] cyclic[at] ==> seen[at]
}

/// A walk may start at any alias.
proof fn lemma_walk_starts(
    aliases: Seq<AliasView>,
    seen: Seq<bool>,
    cyclic: Seq<bool>,
    start: usize,
)
    requires
        settled(aliases, seen, cyclic),
        start < aliases.len(),
    ensures
        walking(aliases, seen, cyclic, Seq::<usize>::empty(), Some(start)),
{
}

/// A walk goes on through an alias that no walk has passed yet.
proof fn lemma_walk_goes_on(
    aliases: Seq<AliasView>,
    seen: Seq<bool>,
    cyclic: Seq<bool>,
    path: Seq<usize>,
    at: usize,
    next: Option<usize>,
)
    requires
        walking(aliases, seen, cyclic, path, Some(at)),
        !seen[at as int],
        as_position(next) == target(aliases, at as int),
    ensures
        walking(aliases, seen.update(at as int, true), cyclic, path.push(at), next),
{
    let seen2 = seen.update(at as int, true);
    let path2 = path.push(at);
    lemma_target_in_range(aliases, at as int);
    assert forall|p: int| 0 <= p < path2.len() - 1 implies target(
        aliases,
        (#[trigger] path2[p]) as int,
    ) == Some(path2[p + 1] as int) by {
        if p < path.len() - 1 {
            assert(path2[p] == path[p]);
            assert(path2[p + 1] == path[p + 1]);
        } else {
            assert(path2[p] == path.last());
        }
    }
    assert forall|other: int|
        0 <= other < aliases.len() && #[trigger] seen2[other] && off_path(
            path2,
            path2.len() as int,
            other,
        ) implies (target(aliases, other) matches Some(next) ==> 0 <= next < aliases.len()
        && seen2[next] && off_path(path2, path2.len() as int, next)) && (cyclic[other]
        <==> refers_to_itself(aliases, other)) by {
        assert(path2[path.len() as int] == at);
        assert(other != at);
        assert(seen[other]);
        assert(off_path(path, path.len() as int, other)) by {
            assert forall|p: int| 0 <= p < path.len() implies #[trigger] path[p] != other by {
                assert(path2[p] == path[p]);
            }
        }
        match target(aliases, other) {
            Some(next) => {
                assert(seen[next]);
                assert(off_path(path, path.len() as int, next));
                assert(next != at);
            },
            None => {},
        }
    }
}

/// An entry of the path does not refer back to itself where the walk has come
/// to an end, to an alias that an earlier walk passed, or back to a later
/// entry of the path.
proof fn lemma_path_entry_is_free(
    aliases: Seq<AliasView>,
    seen: Seq<bool>,
    cyclic: Seq<bool>,
    path: Seq<usize>,
    node: Option<usize>,
    entry: int,
)
    requires
        walking(aliases, seen, cyclic, path, node),
        0 <= entry < path.len(),
        node matches Some(at) ==> seen[at as int] && off_path(path, entry + 1, at as int),
    ensures
        !refers_to_itself(aliases, path[entry] as int),
{
    let inside = Set::new(
        |at: int| 0 <= at < aliases.len() && seen[at] && off_path(path, entry + 1, at),
    );
    assert forall|at: int| #[trigger] inside.contains(at) implies (target(aliases, at) matches Some(
        next,
    ) ==> inside.contains(next)) by {
        match target(aliases, at) {
            Some(next) => {
                lemma_target_in_range(aliases, at);
                if off_path(path, path.len() as int, at) {
                    assert(seen[at]);
                    assert(off_path(path, path.len() as int, next));
                } else {
                    let r = choose|r: int| 0 <= r < path.len() && path[r] == at;
                    assert(path[r] == at);
                    assert(r > entry);
                    if r < path.len() - 1 {
                        assert(path[r + 1] == next);
                    } else {
                        assert(path.last() == at);
                    }
                }
            },
            None => {},
        }
    }
    assert(closed(aliases, inside));
    assert(!inside.contains(path[entry] as int));
    if entry < path.len() - 1 {
        assert(target(aliases, path[entry] as int) == Some(path[entry + 1] as int));
    } else {
        assert(path.last() == path[entry]);
    }
    lemma_never_returns(aliases, inside, path[entry] as int);
}

/// Along the path each entry is reached from every earlier one.
proof fn lemma_path_reaches(
    aliases: Seq<AliasView>,
    seen: Seq<bool>,
    cyclic: Seq<bool>,
    path: Seq<usize>,
    node: Option<usize>,
    from: int,
    to: int,
)
    requires
        walking(aliases, seen, cyclic, path, node),
        0 <= from <= to < path.len(),
    ensures
        reach(aliases, path[from] as int, (to - from) as nat) == Some(path[to] as int),
    decreases to - from,
{
    if from < to {
        assert(target(aliases, path[from] as int) == Some(path[from + 1] as int));
        lemma_path_reaches(aliases, seen, cyclic, path, node, from + 1, to);
    }
}

/// Where the last entry of the path refers back to the entry at `back`,
/// every entry from there on is part of a cycle.
proof fn lemma_path_entry_is_cyclic(
    aliases: Seq<AliasView>,
    seen: Seq<bool>,
    cyclic: Seq<bool>,
    path: Seq<usize>,
    back: int,
    entry: int,
)
    requires
        walking(aliases, seen, cyclic, path, Some(path[back])),
        0 <= back <= entry < path.len(),
    ensures
        refers_to_itself(aliases, path[entry] as int),
{
    let node = Some(path[back]);
    let last = path.len() - 1;
    let to_last = (last - entry) as nat;
    let around = (entry - back) as nat;
    lemma_path_reaches(aliases, seen, cyclic, path, node, entry, last);
    lemma_path_reaches(aliases, seen, cyclic, path, node, back, entry);
    assert(target(aliases, path[last] as int) == Some(path[back] as int));
    assert(reach(aliases, path[last] as int, 1) == Some(path[back] as int)) by {
        assert(reach(aliases, path[back] as int, 0) == Some(path[back] as int));
    }
    lemma_reach_add(aliases, path[entry] as int, to_last, 1);
    lemma_reach_add(aliases, path[entry] as int, to_last + 1, around);
    assert(reach(aliases, path[entry] as int, to_last + 1 + around) == Some(path[entry] as int));
}

/// A walk that has come to an end, or to an alias that an earlier walk
/// passed, has found no cycle.
proof fn lemma_walk_ends(
    aliases: Seq<AliasView>,
    seen: Seq<bool>,
    cyclic: Seq<bool>,
    path: Seq<usize>,
    node: Option<usize>,
)
    requires
        walking(aliases, seen, cyclic, path, node),
        node matches Some(at) ==> seen[at as int] && off_path(path, path.len() as int, at as int),
    ensures
        settled(aliases, seen, cyclic),
{
    assert forall|at: int| 0 <= at < aliases.len() && #[trigger] seen[at] implies (target(
        aliases,
        at,
    ) matches Some(next) ==> 0 <= next < aliases.len() && seen[next]) && (cyclic[at]
        <==> refers_to_itself(aliases, at)) by {
        lemma_target_in_range(aliases, at);
        if !off_path(path, path.len() as int, at) {
            let r = choose|r: int| 0 <= r < path.len() && path[r] == at;
            assert(path[r] == at);
            lemma_path_entry_is_free(aliases, seen, cyclic, path, node, r);
            if r < path.len() - 1 {
                assert(target(aliases, at) == Some(path[r + 1] as int));
            } else {
                assert(path.last() == at);
            }
        }
    }
}

/// A walk that has come back to the entry at `back` of its path has found
/// the cycle that starts there: with the entries from `back` on marked, all
/// that the walk passed is settled.
proof fn lemma_walk_closes(
    aliases: Seq<AliasView>,
    seen: Seq<bool>,
    cyclic: Seq<bool>,
    path: Seq<usize>,
    back: int,
    marked: Seq<bool>,
)
    requires
        0 <= back < path.len(),
        walking(aliases, seen, cyclic, path, Some(path[back])),
        marked.len() == aliases.len(),
        forall|at: int|
            0 <= at < aliases.len() ==> (#[trigger] marked[at] <==> cyclic[at] || on_path_from(
                path,
                back,
                at,
            )),
    ensures
        settled(aliases, seen, marked),
{
    let node = Some(path[back]);
    assert forall|at: int| 0 <= at < aliases.len() && #[trigger] seen[at] implies (target(
        aliases,
        at,
    ) matches Some(next) ==> 0 <= next < aliases.len() && seen[next]) && (marked[at]
        <==> refers_to_itself(aliases, at)) by {
        lemma_target_in_range(aliases, at);
        if !off_path(path, path.len() as int, at) {
            let r = choose|r: int| 0 <= r < path.len() && path[r] == at;
            assert(path[r] == at);
            assert(!cyclic[at]);
            if r < path.len() - 1 {
                assert(target(aliases, at) == Some(path[r + 1] as int));
            } else {
                assert(path.last() == at);
            }
            if r >= back {
                lemma_path_entry_is_cyclic(aliases, seen, cyclic, path, back, r);
                assert(on_path_from(path, back, at));
            } else {
                assert(off_path(path, r + 1, path[back] as int));
                lemma_path_entry_is_free(aliases, seen, cyclic, path, node, r);
                if on_path_from(path, back, at) {
                    let q = choose|q: int| back <= q < path.len() && path[q] == at;
                    assert(path[q] == path[r]);
                }
            }
        } else {
            if on_path_from(path, back, at) {
                let q = choose|q: int| back <= q < path.len() && path[q] == at;
                assert(path[q] == at);
            }
            assert(marked[at] == cyclic[at]);
        }
    }
    assert forall|at: int| 0 <= at < aliases.len() && #[trigger] marked[at] implies seen[at] by {
        if !cyclic[at] {
            let q = choose|q: int| back <= q < path.len() && path[q] == at;
            assert(path[q] == at);
        }
    }
}

/// How many entries of `flags` are not set.
spec fn unset(flags: Seq<bool>) -> nat
    decreases flags.len(),
{
    if flags.len() == 0 {
        0
    } else if flags.last() {
        unset(flags.drop_last())
    } else {
        unset(flags.drop_last()) + 1
    }
}

/// Setting an entry that was not set leaves one fewer unset.
proof fn lemma_set_one(flags: Seq<bool>, at: int)
    requires
        0 <= at < flags.len(),
        !flags[at],
    ensures
        unset(flags.update(at, true)) + 1 == unset(flags),
    decreases flags.len(),
{
    let after = flags.update(at, true);
    if at == flags.len() - 1 {
        assert(after.drop_last() =~= flags.drop_last());
    } else {
        assert(after.drop_last() =~= flags.drop_last().update(at, true));
        lemma_set_one(flags.drop_last(), at);
    }
}

/// As many flags as `count`, none of them set.
fn cleared_flags(count: usize) -> (flags: Vec<bool>)
    ensures
        flags@.len() == count,
        forall|at: int| 0 <= at < count ==> !#[trigger] flags@[at],
{
    let mut flags: Vec<bool> = Vec::new();
    while flags.len() < count
        invariant
            flags@.len() <= count,
            forall|at: int| 0 <= at < flags@.len() ==> !#[trigger] flags@[at],
        decreases count - flags@.len(),
    {
        flags.push(false);
    }
    flags
}

/// The position of `at` on `path`, if it is there.
fn position_on_path(path: &Vec<usize>, at: usize) -> (found: Option<usize>)
    ensures
        match found {
            Some(p) => p < path@.len() && path@[p as int] == at,
            None => off_path(path@, path@.len() as int, at as int),
        },
{
    let mut p: usize = 0;
    while p < path.len()
        invariant
            p <= path@.len(),
            off_path(path@, p as int, at as int),
        decreases path@.len() - p,
    {
        if path[p] == at {
            return Some(p);
        }
        p += 1;
    }
    None
}

/// For each alias in turn, the alias that it refers to: the first alias
/// named like the first word of its command.
pub fn references(aliases: &Vec<Alias>) -> (links: Vec<Option<usize>>)
    ensures
        links_of(links@, alias_views(aliases@)),
{
    let ghost views = alias_views(aliases@);
    let mut links: Vec<Option<usize>> = Vec::new();
    let mut at: usize = 0;
    while at < aliases.len()
        invariant
            at <= aliases.len(),
            views == alias_views(aliases@),
            links@.len() == at,
            forall|i: int| 0 <= i < at ==> as_position(#[trigger] links@[i]) == target(views, i),
        decreases aliases.len() - at,
    {
        let command = aliases[at].command.get().as_str();
        assert(command@ == views[at as int].command);
        let chars = chars_of(command);
        let start = skip_spaces_at(&chars, 0);
        let link = if start < chars.len() {
            let end = skip_word_at(&chars, start);
            let head = substring(command, start, end);
            find_named(aliases, &head)
        } else {
            None
        };
        links.push(link);
        at += 1;
    }
    links
}

/// Walks from the alias at `start` along the references until the chain
/// ends, comes to an alias that an earlier walk passed, or comes back to an
/// alias of its own path; in that last case the aliases of the path from
/// there on are marked as cyclic.
fn walk_from(
    Ghost(views): Ghost<Seq<AliasView>>,
    links: &Vec<Option<usize>>,
    start: usize,
    seen: &mut Vec<bool>,
    cyclic: &mut Vec<bool>,
)
    requires
        links_of(links@, views),
        start < views.len(),
        settled(views, old(seen)@, old(cyclic)@),
    ensures
        settled(views, final(seen)@, final(cyclic)@),
        final(seen)@[start as int],
        forall|at: int| 0 <= at < views.len() && old(seen)@[at] ==> final(seen)@[at],
{
    let mut path: Vec<usize> = Vec::new();
    let mut node: Option<usize> = Some(start);
    proof {
        lemma_walk_starts(views, seen@, cyclic@, start);
    }
    loop
        invariant
            links_of(links@, views),
            start < views.len(),
            walking(views, seen@, cyclic@, path@, node),
            old(seen)@.len() == views.len(),
            forall|at: int| 0 <= at < views.len() && old(seen)@[at] ==> seen@[at],
            path@.len() > 0 ==> seen@[start as int],
            path@.len() == 0 ==> node == Some(start),
        decreases unset(seen@),
    {
        let at = match node {
            Some(at) => at,
            None => {
                proof {
                    lemma_walk_ends(views, seen@, cyclic@, path@, node);
                }
                return ;
            },
        };
        match position_on_path(&path, at) {
            Some(back) => {
                let ghost before = cyclic@;
                let mut entry: usize = back;
                while entry < path.len()
                    invariant
                        back <= entry <= path@.len(),
                        cyclic@.len() == views.len(),
                        before.len() == views.len(),
                        forall|p: int| 0 <= p < path@.len() ==> (#[trigger] path@[p]) < views.len(),
                        forall|i: int|
                            0 <= i < views.len() ==> (#[trigger] cyclic@[i] <==> before[i] || (
                            on_path_from(path@, back as int, i) && !off_path(
                                path@,
                                entry as int,
                                i,
                            ))),
                    decreases path@.len() - entry,
                {
                    let ghost marked = cyclic@;
                    let member = path[entry];
                    cyclic.set(member, true);
                    proof {
                        assert forall|i: int| 0 <= i < views.len() implies (#[trigger] cyclic@[i]
                            <==> before[i] || (on_path_from(path@, back as int, i) && !off_path(
                            path@,
                            entry + 1,
                            i,
                        ))) by {
                            if i == member {
                                assert(path@[entry as int] == i);
                            } else {
                                assert(cyclic@[i] == marked[i]);
                                if !off_path(path@, entry + 1, i) {
                                    let p = choose|p: int|
                                        0 <= p < entry + 1 && p < path@.len() && path@[p] == i;
                                    assert(path@[p] == i);
                                    assert(p < entry);
                                }
                            }
                        }
                    }
                    entry += 1;
                }
                proof {
                    assert forall|i: int| 0 <= i < views.len() implies (#[trigger] cyclic@[i]
                        <==> before[i] || on_path_from(path@, back as int, i)) by {
                        if on_path_from(path@, back as int, i) {
                            let p = choose|p: int| back <= p < path@.len() && path@[p] == i;
                            assert(path@[p] == i);
                        }
                    }
                    lemma_walk_closes(views, seen@, before, path@, back as int, cyclic@);
                }
                return ;
            },
            None => {},
        }
        if seen[at] {
            proof {
                lemma_walk_ends(views, seen@, cyclic@, path@, node);
            }
            return ;
        }
        let next = links[at];
        proof {
            lemma_walk_goes_on(views, seen@, cyclic@, path@, at, next);
            lemma_set_one(seen@, at as int);
        }
        seen.set(at, true);
        path.push(at);
        node = next;
    }
}

/// Removes the aliases that are part of a cycle of references, and with them
/// the later aliases of the same names. The others stay, in their order.
///
/// An alias refers to the first alias named like the first word of its
/// command. An alias that refers into a cycle without being part of it stays.
pub fn remove_cycles(aliases: &Vec<Alias>) -> (kept: Vec<Alias>)
    ensures
        alias_views(kept@) == without_cycles(alias_views(aliases@)),
        cycle_free(alias_views(kept@)),
{
    let ghost views = alias_views(aliases@);
    let count = aliases.len();
    let links = references(aliases);
    let mut seen = cleared_flags(count);
    let mut cyclic = cleared_flags(count);
    let mut firsts: Vec<usize> = Vec::new();
    let mut start: usize = 0;
    while start < count
        invariant
            count == aliases@.len(),
            views == alias_views(aliases@),
            links_of(links@, views),
            settled(views, seen@, cyclic@),
            start <= count,
            firsts@.len() == start,
            forall|i: int|
                0 <= i < start ==> (#[trigger] firsts@[i]) < count && seen@[firsts@[i] as int]
                    && lookup(views, views[i].name) == Some(firsts@[i] as int),
        decreases count - start,
    {
        let name = aliases[start].name.get();
        assert(name@ == views[start as int].name);
        proof {
            lemma_lookup(views, name@);
        }
        let first = match find_named(aliases, name) {
            Some(first) => first,
            None => start,
        };
        walk_from(Ghost(views), &links, first, &mut seen, &mut cyclic);
        firsts.push(first);
        start += 1;
    }
    let mut kept: Vec<Alias> = Vec::new();
    let mut at: usize = 0;
    assert(views.take(0).filter(off_cycles(views)) =~= Seq::<AliasView>::empty()) by {
        reveal(Seq::filter);
    }
    while at < count
        invariant
            count == aliases@.len(),
            views == alias_views(aliases@),
            settled(views, seen@, cyclic@),
            at <= count,
            firsts@.len() == count,
            forall|i: int|
                0 <= i < count ==> (#[trigger] firsts@[i]) < count && seen@[firsts@[i] as int]
                    && lookup(views, views[i].name) == Some(firsts@[i] as int),
            alias_views(kept@) == views.take(at as int).filter(off_cycles(views)),
        decreases count - at,
    {
        let first = firsts[at];
        proof {
            lemma_filter_next(views, off_cycles(views), at as int);
            assert(cyclic@[first as int] == is_cyclic_name(views, views[at as int].name));
        }
        if !cyclic[first] {
            let ghost before = kept@;
            kept.push(aliases[at].clone());
            assert(alias_views(kept@) =~= alias_views(before).push(views[at as int]));
        }
        at += 1;
    }
    proof {
        assert(views.take(count as int) =~= views);
        lemma_without_cycles_is_cycle_free(views);
    }
    kept
}

/// The aliases that can be worked with: first the aliases whose command has
/// no word are left out, then, among the rest, those that are part of a cycle
/// of references.
pub fn filter_invalid_aliases(aliases: &Vec<Alias>) -> (kept: Vec<Alias>)
    ensures
        alias_views(kept@) == valid_aliases(alias_views(aliases@)),
        cycle_free(alias_views(kept@)),
{
    let ghost views = alias_views(aliases@);
    let mut worded_ones: Vec<Alias> = Vec::new();
    let mut at: usize = 0;
    assert(views.take(0).filter(worded()) =~= Seq::<AliasView>::empty()) by {
        reveal(Seq::filter);
    }
    while at < aliases.len()
        invariant
            views == alias_views(aliases@),
            at <= aliases@.len(),
            alias_views(worded_ones@) == views.take(at as int).filter(worded()),
        decreases aliases@.len() - at,
    {
        let command = aliases[at].command.get().as_str();
        assert(command@ == views[at as int].command);
        let chars = chars_of(command);
        let start = skip_spaces_at(&chars, 0);
        proof {
            lemma_filter_next(views, worded(), at as int);
        }
        if start < chars.len() {
            let ghost before = worded_ones@;
            worded_ones.push(aliases[at].clone());
            assert(alias_views(worded_ones@) =~= alias_views(before).push(views[at as int]));
        }
        at += 1;
    }
    assert(views.take(aliases@.len() as int) =~= views);
    remove_cycles(&worded_ones)
}

} // verus!
