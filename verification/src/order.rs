//! The order in which the members of a workspace are released: every member
//! comes after the members that it depends on.

use vstd::prelude::*;
use vstd::pervasive::unreached;
use vstd::seq_lib::seq_to_set_is_finite;
use crate::criteria::SelectionCriteria;
use crate::dependencies::{dependency_walk, lemma_member_from, lemma_unseen_update, unseen};
use crate::package::{Crate, DependencyItem};
use crate::reach::{lemma_dependency_walk, lemma_reaches_transitive, on_cycle, reaches, resolves};

verus! {

/// No member has an empty name, and no two members have the same name.
pub open spec fn names_valid(members: Seq<Crate>) -> bool {
    &&& forall|i: int| 0 <= i < members.len() ==> (#[trigger] members[i]).name@.len() > 0
    &&& forall|i: int, j: int|
        0 <= i < j < members.len() ==> (#[trigger] members[i]).name@ != (#[trigger] members[j]).name@
}

/// No member lies on a cycle of dependencies.
pub open spec fn acyclic(members: Seq<Crate>, criteria: SelectionCriteria) -> bool {
    forall|member: usize|
        member < members.len() ==> #[trigger] dependency_walk(members, criteria, member) is Ok
}

/// The dependencies of a member within the workspace, in the order in
/// which the walk finds them; none where the member lies on a cycle.
pub open spec fn workspace_dependencies(
    members: Seq<Crate>,
    criteria: SelectionCriteria,
    member: int,
) -> Seq<DependencyItem> {
    match dependency_walk(members, criteria, member as usize) {
        Ok(found) => found,
        Err(_) => Seq::empty(),
    }
}

/// The name is that of a dependency of the member within the workspace.
pub open spec fn depends_on_name(
    members: Seq<Crate>,
    criteria: SelectionCriteria,
    member: int,
    name: Seq<char>,
) -> bool {
    exists|item: DependencyItem| #[trigger]
        workspace_dependencies(members, criteria, member).contains(item) && item.0 == name
}

/// The first member depends on the second, directly or through others.
pub open spec fn depends_on(
    members: Seq<Crate>,
    criteria: SelectionCriteria,
    first: int,
    second: int,
) -> bool {
    0 <= first < members.len() && 0 <= second < members.len() && depends_on_name(
        members,
        criteria,
        first,
        members[second].name@,
    )
}

/// The member can be placed next: it is not placed yet, and every member
/// that it depends on is.
pub open spec fn ready(
    members: Seq<Crate>,
    criteria: SelectionCriteria,
    placed: Seq<bool>,
    member: int,
) -> bool {
    &&& 0 <= member < members.len()
    &&& member < placed.len()
    &&& !placed[member]
    &&& forall|other: int|
        0 <= other < placed.len() && #[trigger] depends_on(members, criteria, member, other)
            ==> placed[other]
}

/// The first member from `from` on that can be placed next.
pub open spec fn first_ready(
    members: Seq<Crate>,
    criteria: SelectionCriteria,
    placed: Seq<bool>,
    from: int,
) -> Option<usize>
    decreases members.len() - from,
{
    if from < 0 || from >= members.len() {
        None
    } else if ready(members, criteria, placed, from) {
        Some(from as usize)
    } else {
        first_ready(members, criteria, placed, from + 1)
    }
}

/// The order that comes of placing, again and again, the first member
/// that can be placed next, until there is none.
pub open spec fn order_from(
    members: Seq<Crate>,
    criteria: SelectionCriteria,
    order: Seq<usize>,
    placed: Seq<bool>,
) -> Seq<usize>
    decreases unseen(placed),
{
    match first_ready(members, criteria, placed, 0) {
        None => order,
        Some(next) => if next < placed.len() && !placed[next as int] {
            proof {
                lemma_unseen_update(placed, next as int);
            }
            order_from(members, criteria, order.push(next), placed.update(next as int, true))
        } else {
            order
        },
    }
}

/// The members in the order of their dependencies: the first member, in
/// the order of the workspace, that depends on no other comes first; then,
/// again and again, the first member not placed yet whose dependencies are
/// all placed.
pub open spec fn dependency_order(members: Seq<Crate>, criteria: SelectionCriteria) -> Seq<usize> {
    order_from(members, criteria, Seq::empty(), Seq::new(members.len(), |i: int| false))
}

/// What `first_ready` finds can be placed next, and no member before it
/// can; where it finds nothing, no member can.
pub proof fn lemma_first_ready(
    members: Seq<Crate>,
    criteria: SelectionCriteria,
    placed: Seq<bool>,
    from: int,
)
    requires
        0 <= from,
        members.len() <= usize::MAX,
    ensures
        match first_ready(members, criteria, placed, from) {
            Some(at) => from <= at < members.len() && ready(members, criteria, placed, at as int)
                && forall|i: int| from <= i < at ==> !ready(members, criteria, placed, i),
            None => forall|i: int|
                from <= i < members.len() ==> !ready(members, criteria, placed, i),
        },
    decreases members.len() - from,
{
    if from < members.len() && !ready(members, criteria, placed, from) {
        lemma_first_ready(members, criteria, placed, from + 1);
    }
}

/// Among members with valid names, a name is that of one member only.
pub proof fn lemma_name_resolves(members: Seq<Crate>, member: int)
    requires
        names_valid(members),
        0 <= member < members.len() <= usize::MAX,
    ensures
        crate::dependencies::member_named(members, members[member].name@) == Some(member as usize),
{
    lemma_member_from(members, members[member].name@, 0);
}

/// A member has more dependencies than a member that it depends on.
pub proof fn lemma_dependency_has_fewer(
    members: Seq<Crate>,
    criteria: SelectionCriteria,
    first: int,
    second: int,
)
    requires
        names_valid(members),
        members.len() <= usize::MAX,
        acyclic(members, criteria),
        depends_on(members, criteria, first, second),
    ensures
        workspace_dependencies(members, criteria, second).len() < workspace_dependencies(
            members,
            criteria,
            first,
        ).len(),
{
    let of_first = workspace_dependencies(members, criteria, first);
    let of_second = workspace_dependencies(members, criteria, second);
    lemma_dependency_walk(members, criteria, first as usize);
    lemma_dependency_walk(members, criteria, second as usize);
    assert(dependency_walk(members, criteria, first as usize) is Ok);
    assert(dependency_walk(members, criteria, second as usize) is Ok);
    let via = choose|item: DependencyItem| #[trigger]
        of_first.contains(item) && item.0 == members[second].name@;
    lemma_name_resolves(members, second);
    assert(resolves(members, via, second as usize));
    assert(reaches(members, criteria, first, via));
    assert(!of_second.contains(via)) by {
        if of_second.contains(via) {
            assert(reaches(members, criteria, second, via));
            assert(on_cycle(members, criteria, second as usize));
        }
    }
    assert forall|item: DependencyItem| of_second.contains(item) implies of_first.contains(
        item,
    ) by {
        assert(reaches(members, criteria, second, item));
        lemma_reaches_transitive(members, criteria, first, via, second as usize, item);
    }
    seq_to_set_is_finite(of_first);
    seq_to_set_is_finite(of_second);
    of_first.unique_seq_to_set();
    of_second.unique_seq_to_set();
    assert(of_second.to_set().subset_of(of_first.to_set()));
    of_second.to_set().lemma_subset_not_in_lt(of_first.to_set(), via);
}

/// While a member is not placed, some member can be placed next.
pub proof fn lemma_some_ready(
    members: Seq<Crate>,
    criteria: SelectionCriteria,
    placed: Seq<bool>,
    member: int,
)
    requires
        names_valid(members),
        members.len() <= usize::MAX,
        acyclic(members, criteria),
        placed.len() == members.len(),
        0 <= member < members.len(),
        !placed[member],
    ensures
        exists|next: int| ready(members, criteria, placed, next),
    decreases workspace_dependencies(members, criteria, member).len(),
{
    if !ready(members, criteria, placed, member) {
        let other = choose|other: int|
            0 <= other < placed.len() && #[trigger] depends_on(members, criteria, member, other)
                && !placed[other];
        lemma_dependency_has_fewer(members, criteria, member, other);
        lemma_some_ready(members, criteria, placed, other);
    }
}

/// Where a member is not placed, the unseen count is positive.
pub proof fn lemma_unseen_positive(placed: Seq<bool>, at: int)
    requires
        0 <= at < placed.len(),
        !placed[at],
    ensures
        unseen(placed) > 0,
    decreases placed.len(),
{
    if at < placed.len() - 1 {
        lemma_unseen_positive(placed.drop_last(), at);
    }
}

/// Where the unseen count is positive, some member is not placed.
pub proof fn lemma_unseen_witness(placed: Seq<bool>) -> (at: int)
    requires
        unseen(placed) > 0,
    ensures
        0 <= at < placed.len(),
        !placed[at],
    decreases placed.len(),
{
    if !placed.last() {
        placed.len() - 1
    } else {
        lemma_unseen_witness(placed.drop_last())
    }
}

/// What holds of an order while it is built: it holds the members that are
/// placed, each once, and each member after those that it depends on.
pub open spec fn order_inv(
    members: Seq<Crate>,
    criteria: SelectionCriteria,
    order: Seq<usize>,
    placed: Seq<bool>,
) -> bool {
    &&& placed.len() == members.len() <= usize::MAX
    &&& order.no_duplicates()
    &&& order.len() + unseen(placed) == members.len()
    &&& forall|p: int| 0 <= p < order.len() ==> (#[trigger] order[p]) < members.len()
    &&& forall|member: usize|
        member < members.len() ==> (#[trigger] placed[member as int] <==> order.contains(member))
    &&& forall|p: int, other: int|
        0 <= p < order.len() && #[trigger] depends_on(members, criteria, order[p] as int, other)
            ==> exists|q: int| 0 <= q < p && #[trigger] order[q] == other
}

/// The order holds every member once, and each member after those that it
/// depends on.
pub open spec fn order_is_right(
    members: Seq<Crate>,
    criteria: SelectionCriteria,
    order: Seq<usize>,
) -> bool {
    &&& order.len() == members.len()
    &&& order.no_duplicates()
    &&& forall|p: int| 0 <= p < order.len() ==> (#[trigger] order[p]) < members.len()
    &&& forall|member: usize| member < members.len() ==> #[trigger] order.contains(member)
    &&& forall|p: int, q: int|
        0 <= p < q < order.len() ==> !depends_on(
            members,
            criteria,
            #[trigger] order[p] as int,
            #[trigger] order[q] as int,
        )
}

/// Placing the first member that can be placed next keeps what holds of an
/// order.
pub proof fn lemma_place_inv(
    members: Seq<Crate>,
    criteria: SelectionCriteria,
    order: Seq<usize>,
    placed: Seq<bool>,
    next: usize,
)
    requires
        order_inv(members, criteria, order, placed),
        ready(members, criteria, placed, next as int),
    ensures
        order_inv(members, criteria, order.push(next), placed.update(next as int, true)),
{
    let longer = order.push(next);
    let after = placed.update(next as int, true);
    lemma_unseen_update(placed, next as int);
    assert(longer[order.len() as int] == next);
    assert forall|member: usize| member < members.len() implies (#[trigger] after[member as int]
        <==> longer.contains(member)) by {
        if order.contains(member) {
            let p = choose|p: int| 0 <= p < order.len() && order[p] == member;
            assert(longer[p] == member);
        }
        if longer.contains(member) && member != next {
            let p = choose|p: int| 0 <= p < longer.len() && longer[p] == member;
            assert(order[p] == member);
        }
    }
    assert forall|p: int, other: int|
        0 <= p < longer.len() && #[trigger] depends_on(
            members,
            criteria,
            longer[p] as int,
            other,
        ) implies exists|q: int| 0 <= q < p && #[trigger] longer[q] == other by {
        if p < order.len() {
            assert(depends_on(members, criteria, order[p] as int, other));
            let q = choose|q: int| 0 <= q < p && #[trigger] order[q] == other;
            assert(longer[q] == other);
        } else {
            assert(placed[other]);
            assert(order.contains(other as usize));
            let q = choose|q: int| 0 <= q < order.len() && order[q] == other as usize;
            assert(longer[q] == other);
        }
    }
}

/// An order that is built to its end is right, where no member lies on a
/// cycle.
pub proof fn lemma_order_from(
    members: Seq<Crate>,
    criteria: SelectionCriteria,
    order: Seq<usize>,
    placed: Seq<bool>,
)
    requires
        names_valid(members),
        members.len() <= usize::MAX,
        acyclic(members, criteria),
        order_inv(members, criteria, order, placed),
    ensures
        order_is_right(members, criteria, order_from(members, criteria, order, placed)),
    decreases unseen(placed),
{
    lemma_first_ready(members, criteria, placed, 0);
    match first_ready(members, criteria, placed, 0) {
        None => {
            if unseen(placed) > 0 {
                let at = lemma_unseen_witness(placed);
                lemma_some_ready(members, criteria, placed, at);
            }
            assert forall|p: int, q: int| 0 <= p < q < order.len() implies !depends_on(
                members,
                criteria,
                #[trigger] order[p] as int,
                #[trigger] order[q] as int,
            ) by {
                if depends_on(members, criteria, order[p] as int, order[q] as int) {
                    let earlier = choose|earlier: int|
                        0 <= earlier < p && #[trigger] order[earlier] == order[q] as int;
                    assert(order[earlier] == order[q]);
                }
            }
            assert forall|member: usize| member < members.len() implies #[trigger] order.contains(
                member,
            ) by {
                if !placed[member as int] {
                    lemma_unseen_positive(placed, member as int);
                }
            }
        },
        Some(next) => {
            lemma_place_inv(members, criteria, order, placed, next);
            lemma_unseen_update(placed, next as int);
            lemma_order_from(
                members,
                criteria,
                order.push(next),
                placed.update(next as int, true),
            );
        },
    }
}

/// Where no member lies on a cycle, the order of the dependencies holds
/// every member once, and each member after those that it depends on.
pub proof fn lemma_dependency_order(members: Seq<Crate>, criteria: SelectionCriteria)
    requires
        names_valid(members),
        members.len() <= usize::MAX,
        acyclic(members, criteria),
    ensures
        order_is_right(members, criteria, dependency_order(members, criteria)),
{
    let placed = Seq::new(members.len(), |i: int| false);
    lemma_all_unseen(placed);
    assert(order_inv(members, criteria, Seq::empty(), placed));
    lemma_order_from(members, criteria, Seq::empty(), placed);
}

/// Where no member is placed, all are unseen.
pub proof fn lemma_all_unseen(placed: Seq<bool>)
    requires
        forall|i: int| 0 <= i < placed.len() ==> !placed[i],
    ensures
        unseen(placed) == placed.len(),
    decreases placed.len(),
{
    if placed.len() > 0 {
        lemma_all_unseen(placed.drop_last());
    }
}

/// The members that each member depends on stand in `adjacency`, by their
/// places.
pub open spec fn adjacency_is_right(
    members: Seq<Crate>,
    criteria: SelectionCriteria,
    adjacency: Seq<Vec<usize>>,
) -> bool {
    &&& adjacency.len() == members.len()
    &&& forall|member: int, other: int|
        0 <= member < members.len() && 0 <= other < members.len() ==> (adjacency[member]@.contains(
            other as usize,
        ) <==> #[trigger] depends_on(members, criteria, member, other))
    &&& forall|member: int, k: int|
        0 <= member < members.len() && 0 <= k < adjacency[member]@.len()
            ==> (#[trigger] adjacency[member]@[k]) < members.len()
}

/// Whether the member can be placed next.
fn is_ready(
    Ghost(members): Ghost<Seq<Crate>>,
    Ghost(criteria): Ghost<SelectionCriteria>,
    adjacency: &Vec<Vec<usize>>,
    placed: &Vec<bool>,
    member: usize,
) -> (b: bool)
    requires
        adjacency_is_right(members, criteria, adjacency@),
        placed@.len() == members.len() <= usize::MAX,
        member < members.len(),
    ensures
        b == ready(members, criteria, placed@, member as int),
{
    if placed[member] {
        return false;
    }
    let needs = &adjacency[member];
    let mut k: usize = 0;
    while k < needs.len()
        invariant
            k <= needs.len(),
            adjacency_is_right(members, criteria, adjacency@),
            placed@.len() == members.len() <= usize::MAX,
            member < members.len(),
            needs == &adjacency@[member as int],
            forall|j: int| 0 <= j < k ==> placed@[needs@[j] as int],
        decreases needs.len() - k,
    {
        let other = needs[k];
        assert(needs@.contains(other));
        assert(depends_on(members, criteria, member as int, other as int));
        if !placed[other] {
            return false;
        }
        k += 1;
    }
    proof {
        assert forall|other: int|
            0 <= other < placed@.len() && #[trigger] depends_on(
                members,
                criteria,
                member as int,
                other,
            ) implies placed@[other] by {
            assert(needs@.contains(other as usize));
            let j = choose|j: int| 0 <= j < needs@.len() && needs@[j] == other as usize;
            assert(placed@[needs@[j] as int]);
        }
    }
    true
}

/// Orders the members by their dependencies, which stand in `adjacency`.
pub(crate) fn order_members(
    Ghost(members): Ghost<Seq<Crate>>,
    Ghost(criteria): Ghost<SelectionCriteria>,
    adjacency: &Vec<Vec<usize>>,
) -> (order: Vec<usize>)
    requires
        names_valid(members),
        members.len() <= usize::MAX,
        acyclic(members, criteria),
        adjacency_is_right(members, criteria, adjacency@),
    ensures
        order@ == dependency_order(members, criteria),
        order_is_right(members, criteria, order@),
{
    let count = adjacency.len();
    let mut placed: Vec<bool> = Vec::new();
    let mut i: usize = 0;
    while i < count
        invariant
            i <= count,
            placed@ == Seq::new(i as nat, |j: int| false),
        decreases count - i,
    {
        placed.push(false);
        assert(placed@ =~= Seq::new((i + 1) as nat, |j: int| false));
        i += 1;
    }
    let mut order: Vec<usize> = Vec::new();
    proof {
        assert(placed@ =~= Seq::new(members.len(), |i: int| false));
        assert(order@ =~= Seq::<usize>::empty());
        lemma_all_unseen(placed@);
        lemma_dependency_order(members, criteria);
    }
    while order.len() < count
        invariant
            count == members.len(),
            names_valid(members),
            members.len() <= usize::MAX,
            acyclic(members, criteria),
            adjacency_is_right(members, criteria, adjacency@),
            order_inv(members, criteria, order@, placed@),
            dependency_order(members, criteria) == order_from(
                members,
                criteria,
                order@,
                placed@,
            ),
        decreases count - order.len(),
    {
        let mut member: usize = 0;
        let mut next: Option<usize> = None;
        while member < count && next.is_none()
            invariant
                member <= count,
                count == members.len(),
                members.len() <= usize::MAX,
                adjacency_is_right(members, criteria, adjacency@),
                placed@.len() == members.len(),
                match next {
                    Some(at) => first_ready(members, criteria, placed@, 0) == Some(at),
                    None => first_ready(members, criteria, placed@, 0) == first_ready(
                        members,
                        criteria,
                        placed@,
                        member as int,
                    ),
                },
            decreases count - member + if next.is_none() { 1int } else { 0int },
        {
            if is_ready(Ghost(members), Ghost(criteria), adjacency, &placed, member) {
                next = Some(member);
            } else {
                member += 1;
            }
        }
        proof {
            lemma_first_ready(members, criteria, placed@, 0);
            if next.is_none() {
                let at = lemma_unseen_witness(placed@);
                lemma_some_ready(members, criteria, placed@, at);
            }
        }
        let at = match next {
            Some(at) => at,
            None => unreached(),
        };
        proof {
            lemma_place_inv(members, criteria, order@, placed@, at);
        }
        placed.set(at, true);
        order.push(at);
    }
    proof {
        lemma_first_ready(members, criteria, placed@, 0);
        assert(unseen(placed@) == 0);
        if first_ready(members, criteria, placed@, 0) is Some {
            let at = first_ready(members, criteria, placed@, 0)->Some_0;
            lemma_unseen_positive(placed@, at as int);
        }
    }
    order
}

} // verus!
