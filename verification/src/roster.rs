//! The roster: who belongs to which department.
//!
//! A roster is a finite map from department names to the members of each
//! department, in the order in which they were added. A department comes into
//! being with its first member, so none is ever empty, and a name that is
//! added twice is listed twice.

use crate::command::{AddRequest, Assignment};
use crate::order::{
    alphabetical, lemma_alphabetical_total_ordering, lemma_lex_le_antisymmetric,
    lemma_lex_le_reflexive, lemma_lex_le_total, lemma_lex_le_transitive, lex_le, precedes,
    sort_alphabetically,
};
use vstd::prelude::*;
use vstd::relations::sorted_by;
use vstd::seq_lib::{lemma_sorted_unique, to_multiset_build, to_multiset_contains};

verus! {

/// The members of `department` in `roster`, which are none where the roster
/// has no such department.
pub open spec fn members_in(
    roster: Map<Seq<char>, Seq<Seq<char>>>,
    department: Seq<char>,
) -> Seq<Seq<char>> {
    if roster.dom().contains(department) {
        roster[department]
    } else {
        Seq::empty()
    }
}

/// `roster` after `added.name` has joined `added.department` as its newest
/// member.
pub open spec fn with_member(
    roster: Map<Seq<char>, Seq<Seq<char>>>,
    added: Assignment,
) -> Map<Seq<char>, Seq<Seq<char>>> {
    roster.insert(added.department, members_in(roster, added.department).push(added.name))
}

/// No department of `roster` is without members.
pub open spec fn no_empty_department(roster: Map<Seq<char>, Seq<Seq<char>>>) -> bool {
    forall|department: Seq<char>| #[trigger]
        roster.dom().contains(department) ==> roster[department].len() > 0
}

struct Department {
    name: String,
    members: Vec<String>,
}

/// Departments and their members. The departments are kept in alphabetical
/// order of their names.
pub struct Roster {
    departments: Vec<Department>,
}

/// The names are in alphabetical order and no two are equal.
spec fn ascending(departments: Seq<Department>) -> bool {
    forall|i: int, j: int|
        0 <= i < j < departments.len() ==> lex_le(
            #[trigger] departments[i].name@,
            #[trigger] departments[j].name@,
        ) && departments[i].name@ != departments[j].name@
}

spec fn has_name(departments: Seq<Department>, name: Seq<char>, i: int) -> bool {
    0 <= i < departments.len() && departments[i].name@ == name
}

/// The map that a list of departments stands for.
spec fn model(departments: Seq<Department>) -> Map<Seq<char>, Seq<Seq<char>>> {
    Map::new(
        |name: Seq<char>| exists|i: int| has_name(departments, name, i),
        |name: Seq<char>|
            departments[choose|i: int| has_name(departments, name, i)].members.deep_view(),
    )
}

/// Under its own name the model holds the members of each listed department.
proof fn lemma_model_at(departments: Seq<Department>, i: int)
    requires
        ascending(departments),
        0 <= i < departments.len(),
    ensures
        model(departments).dom().contains(departments[i].name@),
        model(departments)[departments[i].name@] == departments[i].members.deep_view(),
{
    let name = departments[i].name@;
    assert(has_name(departments, name, i));
    let j = choose|j: int| has_name(departments, name, j);
    // No two departments have one name, so the chosen one is the `i`-th.
    assert(j == i);
}

/// Where `name` belongs among `departments`: the index of the first
/// department whose name does not come before it.
fn lower_bound(departments: &Vec<Department>, name: &str) -> (p: usize)
    requires
        ascending(departments@),
    ensures
        p <= departments.len(),
        forall|k: int|
            0 <= k < p ==> lex_le(#[trigger] departments[k].name@, name@) && departments[k].name@
                != name@,
        forall|k: int| p <= k < departments.len() ==> lex_le(name@, #[trigger] departments[k].name@),
{
    let mut p: usize = 0;
    while p < departments.len() && !precedes(name, departments[p].name.as_str())
        invariant
            p <= departments.len(),
            forall|k: int|
                0 <= k < p ==> lex_le(#[trigger] departments[k].name@, name@)
                    && departments[k].name@ != name@,
        decreases departments.len() - p,
    {
        proof {
            lemma_lex_le_total(name@, departments[p as int].name@);
            lemma_lex_le_reflexive(name@);
        }
        p += 1;
    }
    proof {
        assert forall|k: int| p <= k < departments.len() implies lex_le(
            name@,
            #[trigger] departments[k].name@,
        ) by {
            if k > p {
                lemma_lex_le_transitive(name@, departments[p as int].name@, departments[k].name@);
            }
        }
    }
    p
}

/// A name that is not found where it belongs is the name of no department.
proof fn lemma_absent(departments: Seq<Department>, name: Seq<char>, p: int)
    requires
        ascending(departments),
        0 <= p <= departments.len(),
        forall|k: int| 0 <= k < p ==> (#[trigger] departments[k]).name@ != name,
        forall|k: int| p <= k < departments.len() ==> lex_le(name, #[trigger] departments[k].name@),
        p < departments.len() ==> departments[p].name@ != name,
    ensures
        !model(departments).dom().contains(name),
{
    if model(departments).dom().contains(name) {
        let k = choose|k: int| has_name(departments, name, k);
        if k > p {
            lemma_lex_le_antisymmetric(departments[p].name@, departments[k].name@);
        }
    }
}

/// The model has as many departments as the list, and so finitely many.
proof fn lemma_model_size(departments: Seq<Department>)
    requires
        ascending(departments),
    ensures
        model(departments).dom().finite(),
        model(departments).dom().len() == departments.len(),
{
    let names = departments.map_values(|d: Department| d.name@);
    assert forall|name: Seq<char>| names.to_set().contains(name) <==> model(
        departments,
    ).dom().contains(name) by {
        if names.to_set().contains(name) {
            let k = choose|k: int| 0 <= k < names.len() && names[k] == name;
            assert(has_name(departments, name, k));
        }
        if model(departments).dom().contains(name) {
            let k = choose|k: int| has_name(departments, name, k);
            assert(names[k] == name);
        }
    }
    assert(names.to_set() =~= model(departments).dom());
    names.unique_seq_to_set();
    vstd::seq_lib::seq_to_set_is_finite(names);
}

/// A listing of `roster`: its departments in alphabetical order, each once
/// and each with its members in alphabetical order.
pub open spec fn is_listing(
    listing: Seq<(Seq<char>, Seq<Seq<char>>)>,
    roster: Map<Seq<char>, Seq<Seq<char>>>,
) -> bool {
    &&& forall|i: int, j: int|
        0 <= i < j < listing.len() ==> lex_le(#[trigger] listing[i].0, #[trigger] listing[j].0)
            && listing[i].0 != listing[j].0
    &&& forall|i: int|
        0 <= i < listing.len() ==> {
            &&& roster.dom().contains((#[trigger] listing[i]).0)
            &&& sorted_by(listing[i].1, alphabetical())
            &&& listing[i].1.to_multiset() == roster[listing[i].0].to_multiset()
        }
    &&& forall|department: Seq<char>| #[trigger]
        roster.dom().contains(department) ==> exists|i: int|
            0 <= i < listing.len() && (#[trigger] listing[i]).0 == department
}

/// Adding the same person to the same department twice lists the person
/// twice more: nothing is deduplicated. The other departments stay as they are.
pub proof fn lemma_add_twice(roster: Map<Seq<char>, Seq<Seq<char>>>, added: Assignment)
    ensures
        members_in(with_member(with_member(roster, added), added), added.department) == members_in(
            roster,
            added.department,
        ).push(added.name).push(added.name),
        members_in(
            with_member(with_member(roster, added), added),
            added.department,
        ).to_multiset().count(added.name) == members_in(
            roster,
            added.department,
        ).to_multiset().count(added.name) + 2,
        forall|other: Seq<char>|
            other != added.department ==> #[trigger] members_in(
                with_member(with_member(roster, added), added),
                other,
            ) == members_in(roster, other),
{
    let members = members_in(roster, added.department);
    to_multiset_build(members, added.name);
    to_multiset_build(members.push(added.name), added.name);
}

/// The roster that comes of adding `added` one by one, from the first to the
/// last, to a roster without departments.
pub open spec fn filled(added: Seq<Assignment>) -> Map<Seq<char>, Seq<Seq<char>>>
    decreases added.len(),
{
    if added.len() == 0 {
        Map::empty()
    } else {
        with_member(filled(added.drop_last()), added.last())
    }
}

/// A person is listed in a department as often as the person was added to it.
pub proof fn lemma_filled_count(added: Seq<Assignment>, department: Seq<char>, name: Seq<char>)
    ensures
        members_in(filled(added), department).to_multiset().count(name)
            == added.to_multiset().count(Assignment { name, department }),
    decreases added.len(),
{
    let sought = Assignment { name, department };
    if added.len() == 0 {
        to_multiset_contains(added, sought);
        to_multiset_contains(members_in(filled(added), department), name);
    } else {
        let earlier = added.drop_last();
        let last = added.last();
        lemma_filled_count(earlier, department, name);
        assert(added =~= earlier.push(last));
        to_multiset_build(earlier, last);
        if last.department == department {
            to_multiset_build(members_in(filled(earlier), department), last.name);
        }
    }
}

/// A roster has the departments to which somebody was added, and no others.
pub proof fn lemma_filled_departments(added: Seq<Assignment>, department: Seq<char>)
    ensures
        filled(added).dom().contains(department) <==> exists|i: int|
            0 <= i < added.len() && (#[trigger] added[i]).department == department,
    decreases added.len(),
{
    if added.len() > 0 {
        let earlier = added.drop_last();
        lemma_filled_departments(earlier, department);
        if filled(earlier).dom().contains(department) {
            let i = choose|i: int|
                0 <= i < earlier.len() && (#[trigger] earlier[i]).department == department;
            assert(added[i].department == department);
        }
        if exists|i: int| 0 <= i < added.len() && (#[trigger] added[i]).department == department {
            let i = choose|i: int|
                0 <= i < added.len() && (#[trigger] added[i]).department == department;
            if i < earlier.len() {
                assert(earlier[i].department == department);
            }
        }
    }
}

/// The order of the additions decides nothing but the order of the members:
/// the same additions in another order give the same departments, and in
/// each department the same members.
pub proof fn lemma_filled_in_any_order(x: Seq<Assignment>, y: Seq<Assignment>)
    requires
        x.to_multiset() == y.to_multiset(),
    ensures
        filled(x).dom() == filled(y).dom(),
        forall|department: Seq<char>| #[trigger]
            filled(x).dom().contains(department) ==> filled(x)[department].to_multiset()
                == filled(y)[department].to_multiset(),
{
    assert forall|department: Seq<char>|
        filled(x).dom().contains(department) == filled(y).dom().contains(department) by {
        lemma_filled_departments(x, department);
        lemma_filled_departments(y, department);
        if exists|i: int| 0 <= i < x.len() && (#[trigger] x[i]).department == department {
            let i = choose|i: int| 0 <= i < x.len() && (#[trigger] x[i]).department == department;
            to_multiset_contains(x, x[i]);
            to_multiset_contains(y, x[i]);
            let j = choose|j: int| 0 <= j < y.len() && y[j] == x[i];
            assert(y[j].department == department);
        }
        if exists|j: int| 0 <= j < y.len() && (#[trigger] y[j]).department == department {
            let j = choose|j: int| 0 <= j < y.len() && (#[trigger] y[j]).department == department;
            to_multiset_contains(y, y[j]);
            to_multiset_contains(x, y[j]);
            let i = choose|i: int| 0 <= i < x.len() && x[i] == y[j];
            assert(x[i].department == department);
        }
    }
    assert forall|department: Seq<char>| #[trigger]
        filled(x).dom().contains(department) implies filled(x)[department].to_multiset() == filled(
        y,
    )[department].to_multiset() by {
        assert forall|name: Seq<char>|
            filled(x)[department].to_multiset().count(name) == filled(
                y,
            )[department].to_multiset().count(name) by {
            lemma_filled_count(x, department, name);
            lemma_filled_count(y, department, name);
        }
    }
}

/// The department names of a listing, in its order.
pub open spec fn departments_of(listing: Seq<(Seq<char>, Seq<Seq<char>>)>) -> Seq<Seq<char>> {
    listing.map_values(|entry: (Seq<char>, Seq<Seq<char>>)| entry.0)
}

/// A listing does not depend on the order in which the roster was filled:
/// two rosters with the same departments, and in each department the same
/// members however ordered, have one and the same listing.
pub proof fn lemma_listing_ignores_insertion_order(
    first: Map<Seq<char>, Seq<Seq<char>>>,
    second: Map<Seq<char>, Seq<Seq<char>>>,
    a: Seq<(Seq<char>, Seq<Seq<char>>)>,
    b: Seq<(Seq<char>, Seq<Seq<char>>)>,
)
    requires
        is_listing(a, first),
        is_listing(b, second),
        first.dom() == second.dom(),
        forall|department: Seq<char>| #[trigger]
            first.dom().contains(department) ==> first[department].to_multiset()
                == second[department].to_multiset(),
    ensures
        a == b,
{
    let names_a = departments_of(a);
    let names_b = departments_of(b);
    lemma_names_of_listing(a, first);
    lemma_names_of_listing(b, second);
    assert(names_a.to_multiset() =~= names_b.to_multiset()) by {
        names_a.lemma_multiset_has_no_duplicates();
        names_b.lemma_multiset_has_no_duplicates();
        assert forall|name: Seq<char>|
            names_a.to_multiset().count(name) == names_b.to_multiset().count(name) by {
            to_multiset_contains(names_a, name);
            to_multiset_contains(names_b, name);
        }
    }
    lemma_alphabetical_total_ordering();
    lemma_sorted_unique(names_a, names_b, alphabetical());
    assert forall|i: int| 0 <= i < a.len() implies a[i] == b[i] by {
        lemma_sorted_unique(a[i].1, b[i].1, alphabetical());
    }
}

/// The same additions, made in any order, end in one and the same listing.
pub proof fn lemma_listing_of_additions_in_any_order(
    x: Seq<Assignment>,
    y: Seq<Assignment>,
    a: Seq<(Seq<char>, Seq<Seq<char>>)>,
    b: Seq<(Seq<char>, Seq<Seq<char>>)>,
)
    requires
        x.to_multiset() == y.to_multiset(),
        is_listing(a, filled(x)),
        is_listing(b, filled(y)),
    ensures
        a == b,
{
    lemma_filled_in_any_order(x, y);
    lemma_listing_ignores_insertion_order(filled(x), filled(y), a, b);
}

/// The names of a listing are in order, none twice, and are the departments
/// of the roster.
proof fn lemma_names_of_listing(
    listing: Seq<(Seq<char>, Seq<Seq<char>>)>,
    roster: Map<Seq<char>, Seq<Seq<char>>>,
)
    requires
        is_listing(listing, roster),
    ensures
        sorted_by(departments_of(listing), alphabetical()),
        departments_of(listing).no_duplicates(),
        forall|name: Seq<char>|
            departments_of(listing).contains(name) <==> roster.dom().contains(name),
{
    let names = departments_of(listing);
    assert forall|i: int, j: int| 0 <= i < j < names.len() implies #[trigger] alphabetical()(
        names[i],
        names[j],
    ) && names[i] != names[j] by {
        assert(names[i] == listing[i].0 && names[j] == listing[j].0);
    }
    assert forall|name: Seq<char>| names.contains(name) <==> roster.dom().contains(name) by {
        if names.contains(name) {
            let i = choose|i: int| 0 <= i < names.len() && names[i] == name;
            assert(listing[i].0 == name);
        }
        if roster.dom().contains(name) {
            let i = choose|i: int| 0 <= i < listing.len() && (#[trigger] listing[i]).0 == name;
            assert(names[i] == name);
        }
    }
}

impl View for Roster {
    type V = Map<Seq<char>, Seq<Seq<char>>>;

    closed spec fn view(&self) -> Map<Seq<char>, Seq<Seq<char>>> {
        model(self.departments@)
    }
}

impl Roster {
    #[verifier::type_invariant]
    spec fn well_formed(&self) -> bool {
        &&& ascending(self.departments@)
        &&& forall|i: int|
            0 <= i < self.departments.len() ==> (#[trigger] self.departments[i]).members.len() > 0
    }

    /// A roster without departments.
    pub fn new() -> (roster: Roster)
        ensures
            roster@ == Map::<Seq<char>, Seq<Seq<char>>>::empty(),
            roster@.dom().finite(),
            no_empty_department(roster@),
    {
        let roster = Roster { departments: Vec::new() };
        proof {
            assert(roster@ =~= Map::<Seq<char>, Seq<Seq<char>>>::empty());
        }
        roster
    }

    /// Adds the person of `request` to the department of `request`, behind
    /// the members that the department already has. A department that the
    /// roster does not have yet is created for its first member.
    pub fn add(&mut self, request: AddRequest)
        ensures
            final(self)@ == with_member(old(self)@, request@),
            final(self)@.dom().finite(),
            no_empty_department(final(self)@),
    {
        proof {
            use_type_invariant(&*self);
        }
        let (member, department) = request.into_parts();
        let mut departments: Vec<Department> = Vec::new();
        std::mem::swap(&mut departments, &mut self.departments);
        let ghost before = departments@;
        let p = lower_bound(&departments, department.as_str());
        if p < departments.len() && precedes(departments[p].name.as_str(), department.as_str()) {
            proof {
                lemma_lex_le_antisymmetric(before[p as int].name@, department@);
            }
            departments[p].members.push(member);
            proof {
                let after = departments@;
                assert(after[p as int].members.deep_view() =~= before[p as int].members.deep_view().push(
                    member@,
                ));
                lemma_model_at(before, p as int);
                lemma_model_at(after, p as int);
                assert forall|name: Seq<char>| #[trigger]
                    model(after).dom().contains(name) && name != department@ implies model(after)[name]
                    == model(before)[name] by {
                    let k = choose|k: int| has_name(after, name, k);
                    lemma_model_at(before, k);
                    lemma_model_at(after, k);
                }
                assert forall|name: Seq<char>|
                    model(after).dom().contains(name) <==> #[trigger] model(before).dom().contains(
                        name,
                    ) by {
                    if model(after).dom().contains(name) {
                        let k = choose|k: int| has_name(after, name, k);
                        assert(has_name(before, name, k));
                    }
                    if model(before).dom().contains(name) {
                        let k = choose|k: int| has_name(before, name, k);
                        assert(has_name(after, name, k));
                    }
                }
            }
        } else {
            let mut members: Vec<String> = Vec::new();
            members.push(member);
            departments.insert(p, Department { name: department, members });
            proof {
                let after = departments@;
                assert(members.deep_view() =~= seq![member@]);
                assert(ascending(after)) by {
                    assert forall|i: int, j: int| 0 <= i < j < after.len() implies lex_le(
                        #[trigger] after[i].name@,
                        #[trigger] after[j].name@,
                    ) && after[i].name@ != after[j].name@ by {
                        // Behind the new department the old ones have moved by one.
                        if i == p && j - 1 > p && before[j - 1].name@ == department@ {
                            lemma_lex_le_antisymmetric(before[p as int].name@, before[j - 1].name@);
                        }
                    }
                }
                lemma_absent(before, department@, p as int);
                lemma_model_at(after, p as int);
                assert forall|name: Seq<char>| #[trigger]
                    model(before).dom().contains(name) implies model(after).dom().contains(name)
                    && model(after)[name] == model(before)[name] by {
                    let k = choose|k: int| has_name(before, name, k);
                    let moved = if k < p {
                        k
                    } else {
                        k + 1
                    };
                    lemma_model_at(before, k);
                    lemma_model_at(after, moved);
                }
                assert forall|name: Seq<char>| #[trigger]
                    model(after).dom().contains(name) && name != department@ implies model(
                    before,
                ).dom().contains(name) by {
                    let k = choose|k: int| has_name(after, name, k);
                    let origin = if k < p {
                        k
                    } else {
                        k - 1
                    };
                    assert(has_name(before, name, origin));
                }
            }
        }
        self.departments = departments;
        proof {
            self.lemma_invariant();
        }
    }

    /// What the invariant of the list says of the map.
    proof fn lemma_invariant(&self)
        requires
            self.well_formed(),
        ensures
            self@.dom().finite(),
            no_empty_department(self@),
    {
        lemma_model_size(self.departments@);
        assert forall|department: Seq<char>| #[trigger]
            self@.dom().contains(department) implies self@[department].len() > 0 by {
            let k = choose|k: int| has_name(self.departments@, department, k);
            lemma_model_at(self.departments@, k);
        }
    }

    /// The members of `department` in alphabetical order, as a copy. A
    /// department that the roster does not have has no members.
    pub fn members_of(&self, department: &str) -> (members: Vec<String>)
        ensures
            sorted_by(members.deep_view(), alphabetical()),
            members.deep_view().to_multiset() == members_in(self@, department@).to_multiset(),
            members.len() > 0 <==> self@.dom().contains(department@),
    {
        proof {
            use_type_invariant(self);
            self.lemma_invariant();
        }
        let p = lower_bound(&self.departments, department);
        if p < self.departments.len() && precedes(self.departments[p].name.as_str(), department) {
            proof {
                lemma_lex_le_antisymmetric(self.departments[p as int].name@, department@);
                lemma_model_at(self.departments@, p as int);
            }
            let members = sort_alphabetically(&self.departments[p].members);
            proof {
                vstd::seq_lib::to_multiset_len(members.deep_view());
                vstd::seq_lib::to_multiset_len(self@[department@]);
            }
            members
        } else {
            proof {
                lemma_absent(self.departments@, department@, p as int);
            }
            let members: Vec<String> = Vec::new();
            proof {
                assert(members.deep_view() =~= Seq::<Seq<char>>::empty());
            }
            members
        }
    }

    /// Every department with its members, as a copy: the departments in
    /// alphabetical order of their names, the members of each in alphabetical
    /// order.
    pub fn all_members_by_department(&self) -> (listing: Vec<(String, Vec<String>)>)
        ensures
            is_listing(listing.deep_view(), self@),
            listing.len() == self@.dom().len(),
    {
        proof {
            use_type_invariant(self);
            lemma_model_size(self.departments@);
        }
        let mut listing: Vec<(String, Vec<String>)> = Vec::new();
        let mut i: usize = 0;
        while i < self.departments.len()
            invariant
                i <= self.departments.len(),
                listing.len() == i,
                forall|k: int|
                    0 <= k < i ==> {
                        &&& (#[trigger] listing.deep_view()[k]).0 == self.departments[k].name@
                        &&& sorted_by(listing.deep_view()[k].1, alphabetical())
                        &&& listing.deep_view()[k].1.to_multiset()
                            == self.departments[k].members.deep_view().to_multiset()
                    },
            decreases self.departments.len() - i,
        {
            let name = self.departments[i].name.clone();
            let members = sort_alphabetically(&self.departments[i].members);
            let ghost before = listing.deep_view();
            listing.push((name, members));
            proof {
                assert(listing.deep_view() =~= before.push((name@, members.deep_view())));
            }
            i += 1;
        }
        proof {
            let shown = listing.deep_view();
            let departments = self.departments@;
            assert forall|k: int| 0 <= k < shown.len() implies {
                &&& self@.dom().contains((#[trigger] shown[k]).0)
                &&& sorted_by(shown[k].1, alphabetical())
                &&& shown[k].1.to_multiset() == self@[shown[k].0].to_multiset()
            } by {
                lemma_model_at(departments, k);
            }
            assert forall|department: Seq<char>| #[trigger]
                self@.dom().contains(department) implies exists|k: int|
                0 <= k < shown.len() && (#[trigger] shown[k]).0 == department by {
                let k = choose|k: int| has_name(departments, department, k);
                assert(shown[k].0 == department);
            }
            assert forall|a: int, b: int| 0 <= a < b < shown.len() implies lex_le(
                #[trigger] shown[a].0,
                #[trigger] shown[b].0,
            ) && shown[a].0 != shown[b].0 by {
                assert(shown[a].0 == departments[a].name@ && shown[b].0 == departments[b].name@);
            }
        }
        listing
    }
}

} // verus!
