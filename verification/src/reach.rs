//! What a package reaches by the dependencies that the criteria admit, and
//! the proof that the walk of its dependencies finds exactly that.

use vstd::prelude::*;
use crate::criteria::SelectionCriteria;
use crate::dependencies::{
    dependency_walk, expand, finish, lemma_expand_measure, lemma_member_from, member_named, put,
    step, walk_start, Walk,
};
use crate::package::{Crate, DependencyItem};

verus! {

/// The member declares the dependency, and the criteria admit it.
pub open spec fn declares(
    members: Seq<Crate>,
    criteria: SelectionCriteria,
    member: int,
    item: DependencyItem,
) -> bool {
    0 <= member < members.len() && exists|k: int|
        0 <= k < members[member].dependencies@.len() && criteria.admits(
            #[trigger] members[member].dependencies@[k],
        ) && members[member].dependencies@[k].item() == item
}

/// The dependency names the member at this place.
pub open spec fn resolves(members: Seq<Crate>, item: DependencyItem, member: usize) -> bool {
    member_named(members, item.0) == Some(member)
}

/// The member reaches the dependency through at most `steps` other
/// members: it declares it, or it declares a dependency on a member that
/// reaches it in fewer steps.
pub open spec fn reaches_within(
    members: Seq<Crate>,
    criteria: SelectionCriteria,
    member: int,
    item: DependencyItem,
    steps: nat,
) -> bool
    decreases steps,
{
    declares(members, criteria, member, item) || (steps > 0 && exists|
        via: DependencyItem,
        next: usize,
    |
        #[trigger] declares(members, criteria, member, via) && #[trigger] resolves(
            members,
            via,
            next,
        ) && reaches_within(members, criteria, next as int, item, (steps - 1) as nat))
}

/// The member reaches the dependency: it is a dependency of the member
/// within the workspace, direct or through other members.
pub open spec fn reaches(
    members: Seq<Crate>,
    criteria: SelectionCriteria,
    member: int,
    item: DependencyItem,
) -> bool {
    exists|steps: nat| reaches_within(members, criteria, member, item, steps)
}

/// The member lies on a cycle: it reaches a dependency on itself.
pub open spec fn on_cycle(members: Seq<Crate>, criteria: SelectionCriteria, member: usize) -> bool {
    exists|item: DependencyItem| #[trigger]
        reaches(members, criteria, member as int, item) && resolves(members, item, member)
}

/// Some member declares the dependency, and the criteria admit it.
pub open spec fn declared_somewhere(
    members: Seq<Crate>,
    criteria: SelectionCriteria,
    item: DependencyItem,
) -> bool {
    exists|member: int| declares(members, criteria, member, item)
}

/// What a member reaches is declared by some member.
pub proof fn lemma_reached_is_declared(
    members: Seq<Crate>,
    criteria: SelectionCriteria,
    member: int,
    item: DependencyItem,
    steps: nat,
)
    requires
        reaches_within(members, criteria, member, item, steps),
    ensures
        declared_somewhere(members, criteria, item),
        item.1 <= 2,
    decreases steps,
{
    if declares(members, criteria, member, item) {
        let k = choose|k: int|
            0 <= k < members[member].dependencies@.len() && criteria.admits(
                #[trigger] members[member].dependencies@[k],
            ) && members[member].dependencies@[k].item() == item;
        assert(item.1 == members[member].dependencies@[k].kind.spec_code());
    } else {
        let (via, next) = choose|via: DependencyItem, next: usize|
            #[trigger] declares(members, criteria, member, via) && #[trigger] resolves(
                members,
                via,
                next,
            ) && reaches_within(members, criteria, next as int, item, (steps - 1) as nat);
        lemma_reached_is_declared(members, criteria, next as int, item, (steps - 1) as nat);
    }
}

/// What is reached in some steps is reached in more.
pub proof fn lemma_reaches_within_more(
    members: Seq<Crate>,
    criteria: SelectionCriteria,
    member: int,
    item: DependencyItem,
    steps: nat,
    more: nat,
)
    requires
        reaches_within(members, criteria, member, item, steps),
        steps <= more,
    ensures
        reaches_within(members, criteria, member, item, more),
    decreases steps,
{
    if !declares(members, criteria, member, item) {
        let (via, next) = choose|via: DependencyItem, next: usize|
            #[trigger] declares(members, criteria, member, via) && #[trigger] resolves(
                members,
                via,
                next,
            ) && reaches_within(members, criteria, next as int, item, (steps - 1) as nat);
        lemma_reaches_within_more(
            members,
            criteria,
            next as int,
            item,
            (steps - 1) as nat,
            (more - 1) as nat,
        );
    }
}

/// Where a member reaches a dependency on a second member, it reaches what
/// the second one declares.
pub proof fn lemma_reaches_within_extend(
    members: Seq<Crate>,
    criteria: SelectionCriteria,
    member: int,
    via: DependencyItem,
    second: usize,
    item: DependencyItem,
    steps: nat,
)
    requires
        reaches_within(members, criteria, member, via, steps),
        resolves(members, via, second),
        declares(members, criteria, second as int, item),
    ensures
        reaches_within(members, criteria, member, item, steps + 1),
    decreases steps,
{
    if declares(members, criteria, member, via) {
        assert(reaches_within(members, criteria, second as int, item, steps));
    } else {
        let (first, next) = choose|first: DependencyItem, next: usize|
            #[trigger] declares(members, criteria, member, first) && #[trigger] resolves(
                members,
                first,
                next,
            ) && reaches_within(members, criteria, next as int, via, (steps - 1) as nat);
        lemma_reaches_within_extend(
            members,
            criteria,
            next as int,
            via,
            second,
            item,
            (steps - 1) as nat,
        );
    }
}

/// Reaching goes on: where a member reaches a dependency on a second
/// member, it reaches all that the second one reaches.
pub proof fn lemma_reaches_within_chain(
    members: Seq<Crate>,
    criteria: SelectionCriteria,
    member: int,
    via: DependencyItem,
    second: usize,
    item: DependencyItem,
    steps: nat,
    further: nat,
)
    requires
        reaches_within(members, criteria, member, via, steps),
        resolves(members, via, second),
        reaches_within(members, criteria, second as int, item, further),
    ensures
        reaches_within(members, criteria, member, item, steps + further + 1),
    decreases further,
{
    if declares(members, criteria, second as int, item) {
        lemma_reaches_within_extend(members, criteria, member, via, second, item, steps);
        lemma_reaches_within_more(
            members,
            criteria,
            member,
            item,
            steps + 1,
            steps + further + 1,
        );
    } else {
        let (next_via, next) = choose|next_via: DependencyItem, next: usize|
            #[trigger] declares(members, criteria, second as int, next_via) && #[trigger] resolves(
                members,
                next_via,
                next,
            ) && reaches_within(members, criteria, next as int, item, (further - 1) as nat);
        lemma_reaches_within_extend(members, criteria, member, via, second, next_via, steps);
        lemma_reaches_within_chain(
            members,
            criteria,
            member,
            next_via,
            next,
            item,
            steps + 1,
            (further - 1) as nat,
        );
    }
}

/// Reaching goes on: where a member reaches a dependency on a second
/// member, it reaches all that the second one reaches.
pub proof fn lemma_reaches_transitive(
    members: Seq<Crate>,
    criteria: SelectionCriteria,
    member: int,
    via: DependencyItem,
    second: usize,
    item: DependencyItem,
)
    requires
        reaches(members, criteria, member, via),
        resolves(members, via, second),
        reaches(members, criteria, second as int, item),
    ensures
        reaches(members, criteria, member, item),
{
    let steps = choose|steps: nat| reaches_within(members, criteria, member, via, steps);
    let further = choose|further: nat|
        reaches_within(members, criteria, second as int, item, further);
    lemma_reaches_within_chain(members, criteria, member, via, second, item, steps, further);
}

/// The member has been expanded: the walk has come to it, it is on the
/// stack no more, and it is not the one that is being expanded.
pub open spec fn expanded(walk: Walk, current: int, member: int) -> bool {
    0 <= member < walk.seen.len() && walk.seen[member] && !walk.stack.contains(member as usize)
        && member != current
}

/// The walk is well-shaped: it knows of every member whether it has come to
/// it, it has come to the origin and to all that is on the stack, and
/// nothing is found or stacked twice.
pub open spec fn inv_shape(members: Seq<Crate>, origin: usize, walk: Walk) -> bool {
    &&& origin < members.len() <= usize::MAX
    &&& walk.seen.len() == members.len()
    &&& walk.seen[origin as int]
    &&& walk.found.no_duplicates()
    &&& walk.stack.no_duplicates()
    &&& forall|k: int|
        0 <= k < walk.stack.len() ==> (#[trigger] walk.stack[k]) < members.len()
            && walk.seen[walk.stack[k] as int]
}

/// The origin reaches all that was found.
pub open spec fn inv_sound(
    members: Seq<Crate>,
    criteria: SelectionCriteria,
    origin: usize,
    walk: Walk,
) -> bool {
    forall|item: DependencyItem| #[trigger]
        walk.found.contains(item) ==> reaches(members, criteria, origin as int, item)
}

/// The walk has come to a member, but for the origin, by a dependency that
/// it has found.
pub open spec fn inv_witness(members: Seq<Crate>, origin: usize, walk: Walk) -> bool {
    forall|member: usize|
        member < members.len() && #[trigger] walk.seen[member as int] && member != origin
            ==> exists|item: DependencyItem| #[trigger]
            walk.found.contains(item) && resolves(members, item, member)
}

/// The walk has come to every member that a found dependency names, and
/// none names the origin.
pub open spec fn inv_resolved(members: Seq<Crate>, origin: usize, walk: Walk) -> bool {
    forall|item: DependencyItem, member: usize|
        walk.found.contains(item) && #[trigger] resolves(members, item, member) ==> member
            != origin && member < members.len() && walk.seen[member as int]
}

/// All that an expanded member declares has been found.
pub open spec fn inv_closed(
    members: Seq<Crate>,
    criteria: SelectionCriteria,
    walk: Walk,
    current: int,
) -> bool {
    forall|member: int, k: int|
        expanded(walk, current, member) && 0 <= k < members[member].dependencies@.len()
            && criteria.admits(#[trigger] members[member].dependencies@[k])
            ==> walk.found.contains(members[member].dependencies@[k].item())
}

/// The walk has come to the member that is being expanded and taken it
/// off the stack, and what its first `done` dependencies declare has been
/// found.
pub open spec fn inv_current(
    members: Seq<Crate>,
    criteria: SelectionCriteria,
    walk: Walk,
    current: int,
    done: int,
) -> bool {
    current != -1 ==> {
        &&& 0 <= current < members.len()
        &&& walk.seen[current]
        &&& !walk.stack.contains(current as usize)
        &&& 0 <= done <= members[current].dependencies@.len()
        &&& forall|k: int|
            0 <= k < done && criteria.admits(#[trigger] members[current].dependencies@[k])
                ==> walk.found.contains(members[current].dependencies@[k].item())
    }
}

/// What holds of a walk from `origin` at every point, while the first
/// `done` dependencies of the member `current` have been looked at
/// (`current` is -1 between two members).
pub open spec fn walk_inv(
    members: Seq<Crate>,
    criteria: SelectionCriteria,
    origin: usize,
    walk: Walk,
    current: int,
    done: int,
) -> bool {
    &&& inv_shape(members, origin, walk)
    &&& inv_sound(members, criteria, origin, walk)
    &&& inv_witness(members, origin, walk)
    &&& inv_resolved(members, origin, walk)
    &&& inv_closed(members, criteria, walk, current)
    &&& inv_current(members, criteria, walk, current, done)
}

/// The member at which a walk is, or from which it began, reaches what it
/// declares from the origin's point of view too.
proof fn lemma_declared_is_reached(
    members: Seq<Crate>,
    criteria: SelectionCriteria,
    origin: usize,
    walk: Walk,
    current: int,
    done: int,
    item: DependencyItem,
)
    requires
        walk_inv(members, criteria, origin, walk, current, done),
        current != -1,
        declares(members, criteria, current, item),
    ensures
        reaches(members, criteria, origin as int, item),
{
    if current == origin {
        assert(reaches_within(members, criteria, origin as int, item, 0));
    } else {
        let member = current as usize;
        assert(walk.seen[member as int]);
        let via = choose|via: DependencyItem| #[trigger]
            walk.found.contains(via) && resolves(members, via, member);
        assert(reaches(members, criteria, origin as int, via));
        let steps = choose|steps: nat|
            reaches_within(members, criteria, origin as int, via, steps);
        lemma_reaches_within_extend(members, criteria, origin as int, via, member, item, steps);
    }
}

/// One step keeps what holds of a walk; where it ends the walk, the
/// dependency that was looked at names the origin.
pub proof fn lemma_step_inv(
    members: Seq<Crate>,
    criteria: SelectionCriteria,
    origin: usize,
    walk: Walk,
    current: int,
    done: int,
)
    requires
        walk_inv(members, criteria, origin, walk, current, done),
        current != -1,
        done < members[current].dependencies@.len(),
    ensures
        match step(members, criteria, origin, walk, members[current].dependencies@[done]) {
            None => criteria.admits(members[current].dependencies@[done]) && resolves(
                members,
                members[current].dependencies@[done].item(),
                origin,
            ),
            Some(next) => walk_inv(members, criteria, origin, next, current, done + 1),
        },
{
    let dependency = members[current].dependencies@[done];
    let item = dependency.item();
    if criteria.admits(dependency) {
        assert(declares(members, criteria, current, item));
        lemma_declared_is_reached(members, criteria, origin, walk, current, done, item);
        lemma_member_from(members, dependency.name@, 0);
        let found = put(walk.found, item);
        assert(forall|other: DependencyItem|
            found.contains(other) <==> walk.found.contains(other) || other == item) by {
            assert forall|other: DependencyItem|
                found.contains(other) implies walk.found.contains(other) || other == item by {
                let i = choose|i: int| 0 <= i < found.len() && found[i] == other;
                if i < walk.found.len() {
                    assert(walk.found[i] == other);
                }
            }
            assert forall|other: DependencyItem|
                walk.found.contains(other) || other == item implies found.contains(other) by {
                if walk.found.contains(other) {
                    let i = choose|i: int| 0 <= i < walk.found.len() && walk.found[i] == other;
                    assert(found[i] == other);
                } else {
                    assert(found[found.len() - 1] == other);
                }
            }
        }
        assert(found.no_duplicates());
        assert forall|member: usize|
            member < members.len() && #[trigger] walk.seen[member as int] && member
                != origin implies exists|other: DependencyItem| #[trigger]
            found.contains(other) && resolves(members, other, member) by {
            let other = choose|other: DependencyItem| #[trigger]
                walk.found.contains(other) && resolves(members, other, member);
            assert(found.contains(other));
        }
        match member_named(members, dependency.name@) {
            None => {
                let next = Walk { found, ..walk };
                assert(forall|j: int| #[trigger] expanded(next, current, j) == expanded(walk, current, j));
                assert(inv_shape(members, origin, next));
                assert(inv_sound(members, criteria, origin, next));
                assert(inv_witness(members, origin, next));
                assert(inv_resolved(members, origin, next));
                assert(inv_closed(members, criteria, next, current));
                assert(inv_current(members, criteria, next, current, done + 1));
                assert(walk_inv(members, criteria, origin, next, current, done + 1));
            },
            Some(target) => {
                if target != origin {
                    if !walk.seen[target as int] {
                        let next = Walk {
                            found,
                            stack: walk.stack.push(target),
                            seen: walk.seen.update(target as int, true),
                        };
                        assert(!walk.stack.contains(target)) by {
                            if walk.stack.contains(target) {
                                let k = choose|k: int|
                                    0 <= k < walk.stack.len() && walk.stack[k] == target;
                                assert(walk.seen[walk.stack[k] as int]);
                            }
                        }
                        assert(next.stack.contains(target)) by {
                            assert(next.stack[walk.stack.len() as int] == target);
                        }
                        assert forall|other: usize| next.stack.contains(other) implies (
                        walk.stack.contains(other) || other == target) by {
                            let k = choose|k: int|
                                0 <= k < next.stack.len() && next.stack[k] == other;
                            if k < walk.stack.len() {
                                assert(walk.stack[k] == other);
                            }
                        }
                        assert forall|other: usize|
                            walk.stack.contains(other) implies next.stack.contains(other) by {
                            let k = choose|k: int|
                                0 <= k < walk.stack.len() && walk.stack[k] == other;
                            assert(next.stack[k] == other);
                        }
                        assert(forall|j: int| #[trigger]
                            expanded(next, current, j) ==> expanded(walk, current, j));
                        assert(resolves(members, item, target));
                        assert(found.contains(item));
                        assert forall|member: usize|
                            member < members.len() && #[trigger] next.seen[member as int] && member
                                != origin implies exists|other: DependencyItem| #[trigger]
                            next.found.contains(other) && resolves(members, other, member) by {
                            if member != target {
                                assert(walk.seen[member as int]);
                                let other = choose|other: DependencyItem| #[trigger]
                                    found.contains(other) && resolves(members, other, member);
                                assert(next.found.contains(other) && resolves(
                                    members,
                                    other,
                                    member,
                                ));
                            } else {
                                assert(next.found.contains(item) && resolves(
                                    members,
                                    item,
                                    member,
                                ));
                            }
                        }
                        assert(inv_shape(members, origin, next));
                assert(inv_sound(members, criteria, origin, next));
                assert(inv_witness(members, origin, next));
                assert(inv_resolved(members, origin, next));
                assert(inv_closed(members, criteria, next, current));
                assert(inv_current(members, criteria, next, current, done + 1));
                assert(walk_inv(members, criteria, origin, next, current, done + 1));
                    } else {
                        let next = Walk { found, ..walk };
                        assert(forall|j: int| #[trigger]
                            expanded(next, current, j) == expanded(walk, current, j));
                        assert(resolves(members, item, target));
                        assert(inv_shape(members, origin, next));
                assert(inv_sound(members, criteria, origin, next));
                assert(inv_witness(members, origin, next));
                assert(inv_resolved(members, origin, next));
                assert(inv_closed(members, criteria, next, current));
                assert(inv_current(members, criteria, next, current, done + 1));
                assert(walk_inv(members, criteria, origin, next, current, done + 1));
                    }
                }
            },
        }
    } else {
        assert(walk_inv(members, criteria, origin, walk, current, done + 1));
    }
}

/// Expanding a member keeps what holds of a walk; where it ends the walk,
/// the member declares a dependency on the origin.
pub proof fn lemma_expand_inv(
    members: Seq<Crate>,
    criteria: SelectionCriteria,
    origin: usize,
    walk: Walk,
    current: int,
    done: int,
)
    requires
        walk_inv(members, criteria, origin, walk, current, done),
        current != -1,
    ensures
        match expand(
            members,
            criteria,
            origin,
            members[current].dependencies@,
            done,
            walk,
        ) {
            None => exists|item: DependencyItem| #[trigger]
                declares(members, criteria, current, item) && resolves(members, item, origin),
            Some(next) => walk_inv(members, criteria, origin, next, -1, 0),
        },
    decreases members[current].dependencies@.len() - done,
{
    let dependencies = members[current].dependencies@;
    if done < dependencies.len() {
        lemma_step_inv(members, criteria, origin, walk, current, done);
        match step(members, criteria, origin, walk, dependencies[done]) {
            None => {
                assert(declares(members, criteria, current, dependencies[done].item()));
            },
            Some(next) => {
                lemma_expand_inv(members, criteria, origin, next, current, done + 1);
            },
        }
    } else {
        assert(forall|j: int| #[trigger]
            expanded(walk, -1, j) ==> expanded(walk, current, j) || j == current);
        assert(walk_inv(members, criteria, origin, walk, -1, 0));
    }
}

/// Where every member that was seen has been expanded, all that such a
/// member reaches has been found.
proof fn lemma_closed_is_complete(
    members: Seq<Crate>,
    criteria: SelectionCriteria,
    origin: usize,
    walk: Walk,
    member: int,
    item: DependencyItem,
    steps: nat,
)
    requires
        walk_inv(members, criteria, origin, walk, -1, 0),
        walk.stack.len() == 0,
        0 <= member < members.len(),
        walk.seen[member],
        reaches_within(members, criteria, member, item, steps),
    ensures
        walk.found.contains(item),
    decreases steps,
{
    assert(expanded(walk, -1, member));
    if declares(members, criteria, member, item) {
        let k = choose|k: int|
            0 <= k < members[member].dependencies@.len() && criteria.admits(
                #[trigger] members[member].dependencies@[k],
            ) && members[member].dependencies@[k].item() == item;
        assert(walk.found.contains(members[member].dependencies@[k].item()));
    } else {
        let (via, next) = choose|via: DependencyItem, next: usize|
            #[trigger] declares(members, criteria, member, via) && #[trigger] resolves(
                members,
                via,
                next,
            ) && reaches_within(members, criteria, next as int, item, (steps - 1) as nat);
        let k = choose|k: int|
            0 <= k < members[member].dependencies@.len() && criteria.admits(
                #[trigger] members[member].dependencies@[k],
            ) && members[member].dependencies@[k].item() == via;
        assert(walk.found.contains(members[member].dependencies@[k].item()));
        assert(walk.seen[next as int]);
        lemma_closed_is_complete(
            members,
            criteria,
            origin,
            walk,
            next as int,
            item,
            (steps - 1) as nat,
        );
    }
}

/// Taking the next member off the stack keeps what holds of a walk.
proof fn lemma_pop_inv(
    members: Seq<Crate>,
    criteria: SelectionCriteria,
    origin: usize,
    walk: Walk,
)
    requires
        walk_inv(members, criteria, origin, walk, -1, 0),
        walk.stack.len() > 0,
    ensures
        walk.stack.last() < members.len(),
        walk_inv(
            members,
            criteria,
            origin,
            Walk { stack: walk.stack.drop_last(), ..walk },
            walk.stack.last() as int,
            0,
        ),
{
    let member = walk.stack.last();
    let rest = Walk { stack: walk.stack.drop_last(), ..walk };
    assert(walk.stack[walk.stack.len() - 1] == member);
    assert(!rest.stack.contains(member)) by {
        if rest.stack.contains(member) {
            let k = choose|k: int| 0 <= k < rest.stack.len() && rest.stack[k] == member;
            assert(walk.stack[k] == member);
        }
    }
    assert forall|other: usize| walk.stack.contains(other) implies (rest.stack.contains(other)
        || other == member) by {
        let k = choose|k: int| 0 <= k < walk.stack.len() && walk.stack[k] == other;
        if k < rest.stack.len() {
            assert(rest.stack[k] == other);
        }
    }
    assert forall|k: int| 0 <= k < rest.stack.len() implies (#[trigger] rest.stack[k])
        < members.len() && rest.seen[rest.stack[k] as int] by {
        assert(walk.stack[k] == rest.stack[k]);
    }
    assert(forall|j: int| #[trigger] expanded(rest, member as int, j) ==> expanded(walk, -1, j));
    assert(inv_shape(members, origin, rest));
    assert(inv_sound(members, criteria, origin, rest));
    assert(inv_witness(members, origin, rest));
    assert(inv_resolved(members, origin, rest));
    assert(inv_closed(members, criteria, rest, member as int));
    assert(inv_current(members, criteria, rest, member as int, 0));
}

/// The outcome of a walk is right: it found exactly what the origin
/// reaches, each dependency once, and none of them names the origin; or it
/// ended early at a member that declares a dependency on the origin, which
/// lies on a cycle then.
pub open spec fn outcome_is_right(
    members: Seq<Crate>,
    criteria: SelectionCriteria,
    origin: usize,
    outcome: Result<Seq<DependencyItem>, usize>,
) -> bool {
    match outcome {
        Ok(found) => found.no_duplicates() && (forall|item: DependencyItem|
            found.contains(item) <==> reaches(members, criteria, origin as int, item)) && (forall|
            item: DependencyItem,
        |
            found.contains(item) ==> !resolves(members, item, origin)),
        Err(through) => through < members.len() && on_cycle(members, criteria, origin) && (exists|
            item: DependencyItem,
        | #[trigger]
            declares(members, criteria, through as int, item) && resolves(members, item, origin)),
    }
}

/// A walk of which holds what holds of every walk comes to the right
/// outcome.
pub proof fn lemma_finish_inv(
    members: Seq<Crate>,
    criteria: SelectionCriteria,
    origin: usize,
    walk: Walk,
)
    requires
        walk_inv(members, criteria, origin, walk, -1, 0),
    ensures
        outcome_is_right(members, criteria, origin, finish(members, criteria, origin, walk)),
    decreases unseen_of(walk), walk.stack.len(),
{
    if walk.stack.len() == 0 {
        assert forall|item: DependencyItem|
            reaches(members, criteria, origin as int, item) implies walk.found.contains(item) by {
            let steps = choose|steps: nat|
                reaches_within(members, criteria, origin as int, item, steps);
            lemma_closed_is_complete(
                members,
                criteria,
                origin,
                walk,
                origin as int,
                item,
                steps,
            );
        }
        assert(finish(members, criteria, origin, walk) == Ok::<Seq<DependencyItem>, usize>(
            walk.found,
        ));
    } else {
        let member = walk.stack.last();
        let rest = Walk { stack: walk.stack.drop_last(), ..walk };
        lemma_pop_inv(members, criteria, origin, walk);
        let dependencies = members[member as int].dependencies@;
        lemma_expand_inv(members, criteria, origin, rest, member as int, 0);
        lemma_expand_measure(members, criteria, origin, dependencies, 0, rest);
        match expand(members, criteria, origin, dependencies, 0, rest) {
            None => {
                let item = choose|item: DependencyItem| #[trigger]
                    declares(members, criteria, member as int, item) && resolves(
                        members,
                        item,
                        origin,
                    );
                lemma_declared_is_reached(
                    members,
                    criteria,
                    origin,
                    rest,
                    member as int,
                    0,
                    item,
                );
                assert(finish(members, criteria, origin, walk) == Err::<
                    Seq<DependencyItem>,
                    usize,
                >(member));
                assert(on_cycle(members, criteria, origin));
            },
            Some(next) => {
                lemma_finish_inv(members, criteria, origin, next);
                assert(finish(members, criteria, origin, walk) == finish(
                    members,
                    criteria,
                    origin,
                    next,
                ));
            },
        }
    }
}

/// The number of members to which the walk has not come yet.
pub open spec fn unseen_of(walk: Walk) -> nat {
    crate::dependencies::unseen(walk.seen)
}

/// The walk of the dependencies of a member finds exactly what the member
/// reaches, each dependency once, and none of them names the member itself.
/// It ends early exactly when the member lies on a cycle; the member that
/// ends it declares a dependency on the origin.
pub proof fn lemma_dependency_walk(
    members: Seq<Crate>,
    criteria: SelectionCriteria,
    origin: usize,
)
    requires
        origin < members.len() <= usize::MAX,
    ensures
        outcome_is_right(members, criteria, origin, dependency_walk(members, criteria, origin)),
        dependency_walk(members, criteria, origin) is Ok <==> !on_cycle(members, criteria, origin),
{
    let start = walk_start(members, origin);
    assert(start.stack[0] == origin);
    assert(forall|j: int| #[trigger] expanded(start, -1, j) ==> false);
    assert(inv_shape(members, origin, start));
    assert(inv_sound(members, criteria, origin, start));
    assert(inv_witness(members, origin, start));
    assert(inv_resolved(members, origin, start));
    assert(inv_closed(members, criteria, start, -1));
    lemma_finish_inv(members, criteria, origin, start);
    if dependency_walk(members, criteria, origin) is Ok {
        let found = dependency_walk(members, criteria, origin)->Ok_0;
        assert forall|item: DependencyItem| #[trigger]
            reaches(members, criteria, origin as int, item) implies !resolves(
            members,
            item,
            origin,
        ) by {
            assert(found.contains(item));
        }
    }
}

} // verus!
