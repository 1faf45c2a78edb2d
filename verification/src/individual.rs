//! The plain facts about individuals (identity, community, traits, age and
//! children), the head counts taken over them, and how traits bias choices.
//!
//! An individual's health, happiness and wealth are kept by the caller.

use std::collections::HashMap;
use vstd::prelude::*;
use crate::text::same_text;
use crate::types::Trait;

verus! {

/// The plain facts about one individual.
#[derive(Debug, Clone)]
pub struct Profile {
    pub id: u64,
    pub community_id: u64,
    pub traits: Vec<Trait>,
    pub age: i32,
    pub children: i32,
}

impl Profile {
    /// A new adult of twenty with no children and no traits.
    pub fn new(id: u64, community_id: u64) -> (r: Self)
        ensures
            r.id == id,
            r.community_id == community_id,
            r.traits@ == Seq::<Trait>::empty(),
            r.age == 20,
            r.children == 0,
    {
        Profile { id, community_id, traits: Vec::new(), age: 20, children: 0 }
    }

    /// For each of this individual's traits, in order, the position of the
    /// action whose weight it raises: an industrious individual favours the
    /// first action named `Farm`, if there is one.
    pub fn trait_targets(&self, action_names: &Vec<String>) -> (r: Vec<usize>)
        ensures
            r@ == trait_targets_of(self.traits@, action_name_views(action_names@)),
    {
        let farm = first_named(action_names, "Farm");
        let mut out: Vec<usize> = Vec::new();
        let mut i: usize = 0;
        while i < self.traits.len()
            invariant
                i <= self.traits.len(),
                farm == first_index_named(action_name_views(action_names@), "Farm"@),
                out@ == trait_targets_of(
                    self.traits@.subrange(0, i as int),
                    action_name_views(action_names@),
                ),
            decreases self.traits.len() - i,
        {
            proof {
                assert(self.traits@.subrange(0, i + 1).drop_last() =~= self.traits@.subrange(
                    0,
                    i as int,
                ));
                assert(self.traits@.subrange(0, i + 1).last() == self.traits@[i as int]);
            }
            match self.traits[i] {
                Trait::Industrious => match farm {
                    Some(k) => out.push(k),
                    None => {},
                },
            }
            i = i + 1;
        }
        proof {
            assert(self.traits@.subrange(0, self.traits@.len() as int) =~= self.traits@);
        }
        out
    }
}

/// The names of the actions, as text.
pub open spec fn action_name_views(names: Seq<String>) -> Seq<Seq<char>> {
    names.map_values(|n: String| n@)
}

/// The position of the first of `names` equal to `name`, if any.
pub open spec fn first_index_named(names: Seq<Seq<char>>, name: Seq<char>) -> Option<usize> {
    if exists|i: int| 0 <= i < names.len() && names[i] == name {
        let i = choose|i: int|
            0 <= i < names.len() && names[i] == name && forall|j: int|
                0 <= j < i ==> names[j] != name;
        Some(i as usize)
    } else {
        None
    }
}

/// For each trait in order, the position of the action it favours, if any.
pub open spec fn trait_targets_of(traits: Seq<Trait>, names: Seq<Seq<char>>) -> Seq<usize>
    decreases traits.len(),
{
    if traits.len() == 0 {
        Seq::empty()
    } else {
        let before = trait_targets_of(traits.drop_last(), names);
        match traits.last() {
            Trait::Industrious => match first_index_named(names, "Farm"@) {
                Some(k) => before.push(k),
                None => before,
            },
        }
    }
}

/// The position of the first of `names` equal to `name`, if any.
pub fn first_named(names: &Vec<String>, name: &str) -> (r: Option<usize>)
    ensures
        r == first_index_named(action_name_views(names@), name@),
{
    let ghost views = action_name_views(names@);
    let mut i: usize = 0;
    while i < names.len()
        invariant
            i <= names.len(),
            views == action_name_views(names@),
            forall|j: int| 0 <= j < i ==> views[j] != name@,
        decreases names.len() - i,
    {
        if same_text(names[i].as_str(), name) {
            proof {
                assert(views[i as int] == name@);
                let c = choose|c: int|
                    0 <= c < views.len() && views[c] == name@ && forall|j: int|
                        0 <= j < c ==> views[j] != name@;
                assert(c == i) by {
                    if c < i {
                        assert(views[c] != name@);
                    }
                    if c > i {
                        assert(views[i as int] != name@);
                    }
                }
            }
            return Some(i);
        }
        i = i + 1;
    }
    None
}

/// The number of entries of `ids` equal to `c`.
pub open spec fn count_of(ids: Seq<u64>, c: u64) -> nat
    decreases ids.len(),
{
    if ids.len() == 0 {
        0
    } else {
        count_of(ids.drop_last(), c) + if ids.last() == c {
            1nat
        } else {
            0nat
        }
    }
}

/// The communities of the given individuals, in order.
pub open spec fn communities_of(people: Seq<Profile>) -> Seq<u64> {
    people.map_values(|p: Profile| p.community_id)
}

/// The sum of the children of the given individuals.
pub open spec fn children_total(people: Seq<Profile>) -> int
    decreases people.len(),
{
    if people.len() == 0 {
        0
    } else {
        children_total(people.drop_last()) + people.last().children
    }
}

/// Whether every running total of children fits in an `i32`.
pub open spec fn children_totals_fit(people: Seq<Profile>) -> bool {
    forall|k: int|
        0 <= k <= people.len() ==> i32::MIN <= #[trigger] children_total(people.subrange(0, k))
            <= i32::MAX
}

/// Head counts over a population.
pub struct Census {
    /// The number of individuals.
    pub population: usize,
    /// Each community that has members, with its number of members.
    pub community_sizes: HashMap<u64, usize>,
    /// The children of all individuals together.
    pub total_children: i32,
}

/// Counts the individuals, the members of each community and the children.
pub fn take_census(people: &Vec<Profile>) -> (r: Census)
    requires
        children_totals_fit(people@),
    ensures
        r.population == people@.len(),
        r.total_children == children_total(people@),
        forall|c: u64|
            #[trigger] r.community_sizes@.contains_key(c) <==> count_of(communities_of(people@), c)
                > 0,
        forall|c: u64|
            #[trigger] r.community_sizes@.contains_key(c) ==> r.community_sizes@[c] as nat
                == count_of(communities_of(people@), c),
{
    let ghost ids = communities_of(people@);
    let mut sizes: HashMap<u64, usize> = HashMap::new();
    let mut total: i32 = 0;
    let mut i: usize = 0;
    while i < people.len()
        invariant
            i <= people.len(),
            ids == communities_of(people@),
            children_totals_fit(people@),
            total == children_total(people@.subrange(0, i as int)),
            forall|c: u64|
                #[trigger] sizes@.contains_key(c) <==> count_of(ids.subrange(0, i as int), c) > 0,
            forall|c: u64|
                #[trigger] sizes@.contains_key(c) ==> sizes@[c] as nat == count_of(
                    ids.subrange(0, i as int),
                    c,
                ),
        decreases people.len() - i,
    {
        let c = people[i].community_id;
        let ghost prev = ids.subrange(0, i as int);
        let ghost next = ids.subrange(0, i + 1);
        proof {
            assert(next.drop_last() =~= prev);
            assert(next.last() == c);
            assert(people@.subrange(0, i + 1).drop_last() =~= people@.subrange(0, i as int));
            assert(i32::MIN <= children_total(people@.subrange(0, i + 1)) <= i32::MAX);
            lemma_count_at_most_len(prev, c);
        }
        total = total + people[i].children;
        let n: usize = match sizes.get(&c) {
            Some(k) => *k + 1,
            None => 1,
        };
        sizes.insert(c, n);
        proof {
            assert forall|x: u64| #[trigger] sizes@.contains_key(x) <==> count_of(next, x) > 0 by {
                if x != c {
                    assert(count_of(next, x) == count_of(prev, x));
                }
            }
            assert forall|x: u64| #[trigger] sizes@.contains_key(x) implies sizes@[x] as nat
                == count_of(next, x) by {
                if x != c {
                    assert(count_of(next, x) == count_of(prev, x));
                }
            }
        }
        i = i + 1;
    }
    proof {
        assert(ids.subrange(0, people@.len() as int) =~= ids);
        assert(people@.subrange(0, people@.len() as int) =~= people@);
    }
    Census { population: people.len(), community_sizes: sizes, total_children: total }
}

/// A count never exceeds the length of what is counted.
pub proof fn lemma_count_at_most_len(ids: Seq<u64>, c: u64)
    ensures
        count_of(ids, c) <= ids.len(),
    decreases ids.len(),
{
    if ids.len() > 0 {
        lemma_count_at_most_len(ids.drop_last(), c);
    }
}

} // verus!
