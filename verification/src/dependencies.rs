//! The dependencies of a package within its workspace.
//!
//! They are found by a walk that starts at the package and follows, from
//! member to member, the dependencies that the criteria admit. The walk is
//! stated as a specification, `dependency_walk`, and carried out by
//! `walk_dependencies`.

use vstd::prelude::*;
use linked_hash_set::LinkedHashSet;
use crate::collections::{dependency_items, dependency_set_insert_if_absent, dependency_set_new};
use crate::criteria::SelectionCriteria;
use crate::error::SelectionError;
use crate::package::{Crate, Dependency, DependencyItem};

verus! {

/// The place of the first member from `from` on that has the name.
pub open spec fn member_from(members: Seq<Crate>, name: Seq<char>, from: int) -> Option<usize>
    decreases members.len() - from,
{
    if from < 0 || from >= members.len() {
        None
    } else if members[from].name@ == name {
        Some(from as usize)
    } else {
        member_from(members, name, from + 1)
    }
}

/// The place of the member that has the name.
pub open spec fn member_named(members: Seq<Crate>, name: Seq<char>) -> Option<usize> {
    member_from(members, name, 0)
}

/// What `member_from` finds is a member with that name, and none before it
/// has the name; where it finds nothing, no member has the name.
pub proof fn lemma_member_from(members: Seq<Crate>, name: Seq<char>, from: int)
    requires
        0 <= from,
        members.len() <= usize::MAX,
    ensures
        match member_from(members, name, from) {
            Some(at) => from <= at < members.len() && members[at as int].name@ == name && forall|
                i: int,
            |
                from <= i < at ==> members[i].name@ != name,
            None => forall|i: int| from <= i < members.len() ==> members[i].name@ != name,
        },
    decreases members.len() - from,
{
    if from < members.len() && members[from].name@ != name {
        lemma_member_from(members, name, from + 1);
    }
}

/// Finds the member that has the name.
pub fn find_member(members: &Vec<Crate>, name: &String) -> (found: Option<usize>)
    ensures
        found == member_named(members@, name@),
{
    let mut i: usize = 0;
    while i < members.len()
        invariant
            i <= members.len(),
            member_named(members@, name@) == member_from(members@, name@, i as int),
        decreases members.len() - i,
    {
        if members[i].name == *name {
            return Some(i);
        }
        i += 1;
    }
    None
}

/// How far a walk has come.
pub struct Walk {
    /// The dependencies found so far, in the order in which they were found.
    pub found: Seq<DependencyItem>,
    /// The members whose dependencies are still to be looked at; the last
    /// one is next.
    pub stack: Seq<usize>,
    /// For each member, whether the walk has come to it.
    pub seen: Seq<bool>,
}

/// The items with one more at the end, unless it is among them already.
pub open spec fn put(found: Seq<DependencyItem>, item: DependencyItem) -> Seq<DependencyItem> {
    if found.contains(item) {
        found
    } else {
        found.push(item)
    }
}

/// The walk after one declared dependency, or `None` where the dependency
/// leads back to the package at which the walk began. A dependency that the
/// criteria admit is put among those found; if it names a member to which
/// the walk has not come yet, that member goes on the stack.
pub open spec fn step(
    members: Seq<Crate>,
    criteria: SelectionCriteria,
    origin: usize,
    walk: Walk,
    dependency: Dependency,
) -> Option<Walk> {
    if !criteria.admits(dependency) {
        Some(walk)
    } else {
        let found = put(walk.found, dependency.item());
        match member_named(members, dependency.name@) {
            None => Some(Walk { found, ..walk }),
            Some(next) => if next == origin {
                None
            } else if next < walk.seen.len() && !walk.seen[next as int] {
                Some(
                    Walk {
                        found,
                        stack: walk.stack.push(next),
                        seen: walk.seen.update(next as int, true),
                    },
                )
            } else {
                Some(Walk { found, ..walk })
            },
        }
    }
}

/// The walk after the declared dependencies from `from` on, one after the
/// other, or `None` where one of them leads back to the origin.
pub open spec fn expand(
    members: Seq<Crate>,
    criteria: SelectionCriteria,
    origin: usize,
    dependencies: Seq<Dependency>,
    from: int,
    walk: Walk,
) -> Option<Walk>
    decreases dependencies.len() - from,
{
    if from < 0 || from >= dependencies.len() {
        Some(walk)
    } else {
        match step(members, criteria, origin, walk, dependencies[from]) {
            None => None,
            Some(next) => expand(members, criteria, origin, dependencies, from + 1, next),
        }
    }
}

/// The number of members to which a walk has not come yet.
pub open spec fn unseen(seen: Seq<bool>) -> nat
    decreases seen.len(),
{
    if seen.len() == 0 {
        0
    } else if seen.last() {
        unseen(seen.drop_last())
    } else {
        unseen(seen.drop_last()) + 1
    }
}

/// Coming to a member makes the unseen members one fewer.
pub proof fn lemma_unseen_update(seen: Seq<bool>, at: int)
    requires
        0 <= at < seen.len(),
        !seen[at],
    ensures
        unseen(seen.update(at, true)) + 1 == unseen(seen),
    decreases seen.len(),
{
    let after = seen.update(at, true);
    if at == seen.len() - 1 {
        assert(after.drop_last() =~= seen.drop_last());
    } else {
        assert(after.drop_last() =~= seen.drop_last().update(at, true));
        lemma_unseen_update(seen.drop_last(), at);
    }
}

/// A step either leaves stack and seen members as they were, or comes to
/// one more member and puts it on the stack.
pub proof fn lemma_step_measure(
    members: Seq<Crate>,
    criteria: SelectionCriteria,
    origin: usize,
    walk: Walk,
    dependency: Dependency,
)
    ensures
        match step(members, criteria, origin, walk, dependency) {
            None => true,
            Some(next) => next.seen.len() == walk.seen.len() && unseen(next.seen) + next.stack.len()
                == unseen(walk.seen) + walk.stack.len() && unseen(next.seen) <= unseen(
                walk.seen,
            ) && (unseen(next.seen) == unseen(walk.seen) ==> next.stack == walk.stack),
        },
{
    if criteria.admits(dependency) {
        match member_named(members, dependency.name@) {
            None => {},
            Some(next) => {
                if next != origin && next < walk.seen.len() && !walk.seen[next as int] {
                    lemma_unseen_update(walk.seen, next as int);
                }
            },
        }
    }
}

/// Expanding a member either leaves stack and seen members as they were,
/// or makes the unseen members fewer.
pub proof fn lemma_expand_measure(
    members: Seq<Crate>,
    criteria: SelectionCriteria,
    origin: usize,
    dependencies: Seq<Dependency>,
    from: int,
    walk: Walk,
)
    ensures
        match expand(members, criteria, origin, dependencies, from, walk) {
            None => true,
            Some(next) => next.seen.len() == walk.seen.len() && unseen(next.seen) + next.stack.len()
                == unseen(walk.seen) + walk.stack.len() && unseen(next.seen) <= unseen(
                walk.seen,
            ) && (unseen(next.seen) == unseen(walk.seen) ==> next.stack == walk.stack),
        },
    decreases dependencies.len() - from,
{
    if 0 <= from < dependencies.len() {
        lemma_step_measure(members, criteria, origin, walk, dependencies[from]);
        match step(members, criteria, origin, walk, dependencies[from]) {
            None => {},
            Some(next) => {
                lemma_expand_measure(members, criteria, origin, dependencies, from + 1, next);
            },
        }
    }
}

/// What a walk finds from where it has come to: the members on the stack
/// are expanded, the last one first, until the stack is empty. `Err(m)`
/// where member `m` declares a dependency that leads back to the origin.
pub open spec fn finish(
    members: Seq<Crate>,
    criteria: SelectionCriteria,
    origin: usize,
    walk: Walk,
) -> Result<Seq<DependencyItem>, usize>
    decreases unseen(walk.seen), walk.stack.len(),
{
    if walk.stack.len() == 0 {
        Ok(walk.found)
    } else {
        let member = walk.stack.last();
        let rest = Walk { stack: walk.stack.drop_last(), ..walk };
        if member >= members.len() {
            Ok(walk.found)
        } else {
            match expand(
                members,
                criteria,
                origin,
                members[member as int].dependencies@,
                0,
                rest,
            ) {
                None => Err(member),
                Some(next) => {
                    proof {
                        lemma_expand_measure(
                            members,
                            criteria,
                            origin,
                            members[member as int].dependencies@,
                            0,
                            rest,
                        );
                    }
                    finish(members, criteria, origin, next)
                },
            }
        }
    }
}

/// Where a walk begins: nothing is found, the origin alone is on the stack
/// and seen.
pub open spec fn walk_start(members: Seq<Crate>, origin: usize) -> Walk {
    Walk {
        found: Seq::empty(),
        stack: seq![origin],
        seen: Seq::new(members.len(), |i: int| i == origin),
    }
}

/// The dependencies of the member `origin` within the workspace, in the
/// order in which the walk finds them: those that the origin declares and
/// the criteria admit, then those of the members among them, the last one
/// first, and so on. No dependency is found twice, and no member is
/// expanded twice. `Err(m)` where member `m`, to which the walk has come,
/// declares a dependency on the origin: a cycle.
pub open spec fn dependency_walk(
    members: Seq<Crate>,
    criteria: SelectionCriteria,
    origin: usize,
) -> Result<Seq<DependencyItem>, usize> {
    finish(members, criteria, origin, walk_start(members, origin))
}

/// Walks the dependencies of the member `origin` within the workspace.
pub fn walk_dependencies(members: &Vec<Crate>, criteria: &SelectionCriteria, origin: usize) -> (r:
    Result<LinkedHashSet<(String, u8, bool)>, SelectionError>)
    requires
        origin < members.len(),
    ensures
        match r {
            Ok(set) => dependency_walk(members@, *criteria, origin) == Ok::<
                Seq<DependencyItem>,
                usize,
            >(dependency_items(set)),
            Err(error) => match dependency_walk(members@, *criteria, origin) {
                Ok(_) => false,
                Err(through) => through < members.len() && match error {
                    SelectionError::DependencyCycle { from, to } => from@
                        == members@[origin as int].name@ && to@ == members@[through as int].name@,
                    _ => false,
                },
            },
        },
{
    let mut found = dependency_set_new();
    let mut stack: Vec<usize> = Vec::new();
    stack.push(origin);
    let mut seen: Vec<bool> = Vec::new();
    let mut i: usize = 0;
    while i < members.len()
        invariant
            i <= members.len(),
            seen@ == Seq::new(i as nat, |j: int| j == origin),
        decreases members.len() - i,
    {
        seen.push(i == origin);
        assert(seen@ =~= Seq::new((i + 1) as nat, |j: int| j == origin));
        i += 1;
    }
    proof {
        let start = Walk { found: dependency_items(found), stack: stack@, seen: seen@ };
        assert(start.stack =~= walk_start(members@, origin).stack);
        assert(start.found =~= walk_start(members@, origin).found);
        assert(start.seen =~= walk_start(members@, origin).seen);
        assert(start == walk_start(members@, origin));
    }

    while stack.len() > 0
        invariant
            origin < members.len(),
            seen@.len() == members@.len(),
            forall|k: int| 0 <= k < stack@.len() ==> stack@[k] < members@.len(),
            dependency_walk(members@, *criteria, origin) == finish(
                members@,
                *criteria,
                origin,
                Walk { found: dependency_items(found), stack: stack@, seen: seen@ },
            ),
        decreases unseen(seen@), stack@.len(),
    {
        let ghost before = Walk { found: dependency_items(found), stack: stack@, seen: seen@ };
        let member = stack.pop().unwrap();
        let ghost rest = Walk { stack: before.stack.drop_last(), ..before };
        let dependencies = &members[member].dependencies;
        proof {
            lemma_expand_measure(members@, *criteria, origin, dependencies@, 0, rest);
        }
        let mut at: usize = 0;
        while at < dependencies.len()
            invariant
                at <= dependencies.len(),
                origin < members.len(),
                member < members.len(),
                dependencies == &members@[member as int].dependencies,
                seen@.len() == members@.len(),
                before.stack.len() > 0,
                member == before.stack.last(),
                rest == (Walk { stack: before.stack.drop_last(), ..before }),
                dependency_walk(members@, *criteria, origin) == finish(
                    members@,
                    *criteria,
                    origin,
                    before,
                ),
                forall|k: int| 0 <= k < stack@.len() ==> stack@[k] < members@.len(),
                expand(members@, *criteria, origin, dependencies@, 0, rest) == expand(
                    members@,
                    *criteria,
                    origin,
                    dependencies@,
                    at as int,
                    Walk { found: dependency_items(found), stack: stack@, seen: seen@ },
                ),
            decreases dependencies.len() - at,
        {
            let dependency = &dependencies[at];
            let ghost here = Walk { found: dependency_items(found), stack: stack@, seen: seen@ };
            if criteria.admits_dependency(dependency) {
                dependency_set_insert_if_absent(
                    &mut found,
                    dependency.name.clone(),
                    dependency.kind.code(),
                    dependency.optional,
                );
                match find_member(members, &dependency.name) {
                    None => {},
                    Some(next) => {
                        proof {
                            lemma_member_from(members@, dependency.name@, 0);
                        }
                        if next == origin {
                            return Err(
                                SelectionError::DependencyCycle {
                                    from: members[origin].name.clone(),
                                    to: members[member].name.clone(),
                                },
                            );
                        }
                        if !seen[next] {
                            seen.set(next, true);
                            stack.push(next);
                        }
                    },
                }
            }
            assert(step(members@, *criteria, origin, here, *dependency) == Some(
                Walk { found: dependency_items(found), stack: stack@, seen: seen@ },
            ));
            at += 1;
        }
    }
    Ok(found)
}

} // verus!
