//! Unique names for the structs that generated code declares.

use vstd::prelude::*;
use crate::text::{i64_to_decimal, nat_decimal, int_decimal};

verus! {

/// Something that asks for a name, and is known by an id.
pub trait Nameable {
    type Id;

    /// The id the subject is known by. Every impl in this library defines
    /// it; the default (no fact known) is there for impls written outside
    /// verified code, which cannot define spec functions.
    closed spec fn spec_id(&self) -> Self::Id {
        arbitrary()
    }

    /// The name the subject asks for; defined by every impl in this library
    /// (see `spec_id` for the default).
    closed spec fn spec_requested_name(&self) -> Seq<char> {
        arbitrary()
    }

    fn id(&self) -> (r: Self::Id)
        ensures
            r == self.spec_id(),
    ;

    fn requested_name(&self) -> (r: String)
        ensures
            r@ == self.spec_requested_name(),
    ;
}

/// The name given to the `count`-th subject that asks for `requested`: the
/// first gets it as it is, later ones get it with their number appended.
pub open spec fn numbered_name(requested: Seq<char>, count: nat) -> Seq<char> {
    if count == 1 {
        requested
    } else {
        requested + nat_decimal(count)
    }
}

/// What a namer with the names `names` and the counts `uses` does for the
/// subject `id` that asks for `requested`: the name it gives, and its names
/// and counts afterwards. A subject with a name keeps it; another gets the
/// name it asks for, numbered by how many subjects asked for it.
pub open spec fn name_step<Id>(
    names: Map<Id, Seq<char>>,
    uses: Map<Seq<char>, nat>,
    id: Id,
    requested: Seq<char>,
) -> (Seq<char>, Map<Id, Seq<char>>, Map<Seq<char>, nat>) {
    if names.contains_key(id) {
        (names[id], names, uses)
    } else {
        let count = (if uses.contains_key(requested) { uses[requested] } else { 0 }) + 1;
        let name = numbered_name(requested, count);
        (name, names.insert(id, name), uses.insert(requested, count))
    }
}

/// Hands out names: the name a subject gets once it keeps, and a name
/// asked for again is numbered.
#[verifier::reject_recursive_types(Id)]
pub struct Namer<Id> {
    named_subjects: Vec<(Id, String)>,
    used_names: Vec<(String, u16)>,
    names: Ghost<Map<Id, Seq<char>>>,
    uses: Ghost<Map<Seq<char>, nat>>,
}

impl<Id> Namer<Id> {
    /// The name each named subject has, by id.
    pub closed spec fn names(&self) -> Map<Id, Seq<char>> {
        self.names@
    }

    /// How many subjects have asked for each name.
    pub closed spec fn uses(&self) -> Map<Seq<char>, nat> {
        self.uses@
    }

    /// How many subjects have asked for `name`.
    pub open spec fn use_count(&self, name: Seq<char>) -> nat {
        if self.uses().contains_key(name) {
            self.uses()[name]
        } else {
            0
        }
    }

    /// The entries agree with the maps, and each id and name has one entry.
    pub closed spec fn wf(&self) -> bool {
        &&& forall|i: int, j: int|
            0 <= i < j < self.named_subjects@.len() ==> (#[trigger] self.named_subjects@[i]).0
                != (#[trigger] self.named_subjects@[j]).0
        &&& forall|i: int|
            0 <= i < self.named_subjects@.len() ==> {
                &&& self.names@.contains_key((#[trigger] self.named_subjects@[i]).0)
                &&& self.names@[self.named_subjects@[i].0] == self.named_subjects@[i].1@
            }
        &&& forall|id: Id|
            #[trigger] self.names@.contains_key(id) ==> exists|i: int|
                0 <= i < self.named_subjects@.len() && (#[trigger] self.named_subjects@[i]).0 == id
        &&& forall|i: int, j: int|
            0 <= i < j < self.used_names@.len() ==> (#[trigger] self.used_names@[i]).0@
                != (#[trigger] self.used_names@[j]).0@
        &&& forall|i: int|
            0 <= i < self.used_names@.len() ==> {
                &&& self.uses@.contains_key((#[trigger] self.used_names@[i]).0@)
                &&& self.uses@[self.used_names@[i].0@] == self.used_names@[i].1 as nat
            }
        &&& forall|n: Seq<char>|
            #[trigger] self.uses@.contains_key(n) ==> exists|i: int|
                0 <= i < self.used_names@.len() && (#[trigger] self.used_names@[i]).0@ == n
    }
}

impl<Id: Eq + std::hash::Hash> Namer<Id> {
    /// A namer that has named nothing.
    pub fn new() -> (r: Namer<Id>)
        ensures
            r.wf(),
            r.names() == Map::<Id, Seq<char>>::empty(),
            r.uses() == Map::<Seq<char>, nat>::empty(),
    {
        Namer {
            named_subjects: Vec::new(),
            used_names: Vec::new(),
            names: Ghost(Map::empty()),
            uses: Ghost(Map::empty()),
        }
    }

    /// The name of `subject`: the one it already has, or else a new one:
    /// the name it asks for, numbered from 2 on when that name was asked
    /// for before.
    pub fn name_subject<Subject: Nameable<Id = Id>>(&mut self, subject: &Subject) -> (r: String)
        requires
            old(self).wf(),
            vstd::laws_eq::obeys_concrete_eq::<Id>(),
            !old(self).names().contains_key(subject.spec_id()) ==> old(self).use_count(
                subject.spec_requested_name(),
            ) < u16::MAX,
        ensures
            final(self).wf(),
            old(self).names().contains_key(subject.spec_id()) ==> {
                &&& r@ == old(self).names()[subject.spec_id()]
                &&& final(self).names() == old(self).names()
                &&& final(self).uses() == old(self).uses()
            },
            !old(self).names().contains_key(subject.spec_id()) ==> {
                let requested = subject.spec_requested_name();
                let count = old(self).use_count(requested) + 1;
                &&& r@ == numbered_name(requested, count)
                &&& final(self).names() == old(self).names().insert(subject.spec_id(), r@)
                &&& final(self).uses() == old(self).uses().insert(requested, count)
            },
    {
        let id = subject.id();
        match self.find_named(&id) {
            Some(i) => {
                return self.named_subjects[i].1.clone();
            },
            None => {},
        }
        let requested = subject.requested_name();
        self.impl_naming(id, requested)
    }

    fn find_named(&self, id: &Id) -> (r: Option<usize>)
        requires
            self.wf(),
            vstd::laws_eq::obeys_concrete_eq::<Id>(),
        ensures
            r is Some <==> self.names().contains_key(*id),
            r matches Some(i) ==> i < self.named_subjects@.len() && self.named_subjects@[i as int].0
                == *id && self.names()[*id] == self.named_subjects@[i as int].1@,
    {
        proof {
            reveal(vstd::laws_eq::obeys_concrete_eq);
        }
        let mut i: usize = 0;
        while i < self.named_subjects.len()
            invariant
                self.wf(),
                vstd::laws_eq::obeys_concrete_eq::<Id>(),
                i <= self.named_subjects@.len(),
                forall|j: int| 0 <= j < i ==> (#[trigger] self.named_subjects@[j]).0 != *id,
            decreases self.named_subjects.len() - i,
        {
            proof {
                reveal(vstd::laws_eq::obeys_concrete_eq);
            }
            if self.named_subjects[i].0 == *id {
                return Some(i);
            }
            i = i + 1;
        }
        proof {
            if self.names@.contains_key(*id) {
                let k = choose|k: int| 0 <= k < self.named_subjects@.len() && (#[trigger] self.named_subjects@[k]).0 == *id;
                assert(self.named_subjects@[k].0 != *id);
            }
        }
        None
    }

    fn find_used(&self, name: &String) -> (r: Option<usize>)
        requires
            self.wf(),
        ensures
            r is Some <==> self.uses().contains_key(name@),
            r matches Some(i) ==> i < self.used_names@.len() && self.used_names@[i as int].0@ == name@
                && self.uses()[name@] == self.used_names@[i as int].1 as nat,
    {
        let mut i: usize = 0;
        while i < self.used_names.len()
            invariant
                self.wf(),
                i <= self.used_names@.len(),
                forall|j: int| 0 <= j < i ==> (#[trigger] self.used_names@[j]).0@ != name@,
            decreases self.used_names.len() - i,
        {
            if self.used_names[i].0 == *name {
                return Some(i);
            }
            i = i + 1;
        }
        proof {
            if self.uses@.contains_key(name@) {
                let k = choose|k: int| 0 <= k < self.used_names@.len() && (#[trigger] self.used_names@[k]).0@ == name@;
                assert(self.used_names@[k].0@ != name@);
            }
        }
        None
    }

    fn impl_naming(&mut self, id: Id, requested_name: String) -> (r: String)
        requires
            old(self).wf(),
            vstd::laws_eq::obeys_concrete_eq::<Id>(),
            !old(self).names().contains_key(id),
            old(self).use_count(requested_name@) < u16::MAX,
        ensures
            final(self).wf(),
            r@ == numbered_name(requested_name@, old(self).use_count(requested_name@) + 1),
            final(self).names() == old(self).names().insert(id, r@),
            final(self).uses() == old(self).uses().insert(
                requested_name@,
                old(self).use_count(requested_name@) + 1,
            ),
    {
        let ghost old_uses = self.uses@;
        let ghost count = self.use_count(requested_name@) + 1;
        let used_count: u16 = match self.find_used(&requested_name) {
            Some(i) => {
                let c = self.used_names[i].1 + 1;
                self.used_names.set(i, (requested_name.clone(), c));
                c
            },
            None => {
                self.used_names.push((requested_name.clone(), 1));
                1
            },
        };
        proof {
            self.uses@ = old_uses.insert(requested_name@, count);
            assert(used_count as nat == count);
            let uv = self.used_names@;
            let ov = old(self).used_names@;
            assert forall|i: int, j: int| 0 <= i < j < uv.len() implies (#[trigger] uv[i]).0@ != (#[trigger] uv[j]).0@ by {
                if j == ov.len() {
                    assert(!old_uses.contains_key(requested_name@));
                    assert(old_uses.contains_key(ov[i].0@));
                } else {
                    if uv[i] != ov[i] {
                        assert(uv[i].0@ == requested_name@);
                        assert(old_uses.contains_key(requested_name@));
                    }
                    if uv[j] != ov[j] {
                        assert(uv[j].0@ == requested_name@);
                    }
                }
            }
            assert forall|i: int| 0 <= i < uv.len() implies {
                &&& self.uses@.contains_key((#[trigger] uv[i]).0@)
                &&& self.uses@[uv[i].0@] == uv[i].1 as nat
            } by {
                if i < ov.len() && uv[i] == ov[i] {
                    assert(old_uses.contains_key(ov[i].0@));
                }
            }
            assert forall|n: Seq<char>| #[trigger] self.uses@.contains_key(n) implies exists|i: int|
                0 <= i < uv.len() && (#[trigger] uv[i]).0@ == n by {
                if n == requested_name@ {
                    if old_uses.contains_key(n) {
                        let i = choose|i: int| 0 <= i < old(self).used_names@.len() && (#[trigger] old(self).used_names@[i]).0@ == n;
                        assert(uv[i].0@ == n);
                    } else {
                        assert(uv[uv.len() - 1].0@ == n);
                    }
                } else {
                    let i = choose|i: int| 0 <= i < old(self).used_names@.len() && (#[trigger] old(self).used_names@[i]).0@ == n;
                    assert(uv[i] == old(self).used_names@[i]);
                }
            }
        }
        let name = if used_count == 1 {
            requested_name
        } else {
            let mut n = requested_name;
            let digits = i64_to_decimal(used_count as i64);
            n.append(digits.as_str());
            n
        };
        proof {
            assert(int_decimal(used_count as int) == nat_decimal(used_count as nat));
        }
        let ghost old_names = self.names@;
        self.named_subjects.push((id, name.clone()));
        proof {
            self.names@ = old_names.insert(id, name@);
            let nv = self.named_subjects@;
            assert forall|i: int| 0 <= i < nv.len() implies {
                &&& self.names@.contains_key((#[trigger] nv[i]).0)
                &&& self.names@[nv[i].0] == nv[i].1@
            } by {
                if i < nv.len() - 1 {
                    assert(nv[i] == old(self).named_subjects@[i]);
                    assert(old_names.contains_key(nv[i].0));
                }
            }
            assert forall|k: Id| #[trigger] self.names@.contains_key(k) implies exists|i: int|
                0 <= i < nv.len() && (#[trigger] nv[i]).0 == k by {
                if k == id {
                    assert(nv[nv.len() - 1].0 == k);
                } else {
                    let i = choose|i: int| 0 <= i < old(self).named_subjects@.len() && (#[trigger] old(self).named_subjects@[i]).0 == k;
                    assert(nv[i] == old(self).named_subjects@[i]);
                }
            }
            assert forall|i: int, j: int| 0 <= i < j < nv.len() implies (#[trigger] nv[i]).0 != (#[trigger] nv[j]).0 by {
                if j == nv.len() - 1 {
                    if nv[i].0 == id {
                        assert(old(self).names@.contains_key(old(self).named_subjects@[i].0));
                    }
                } else {
                    assert(nv[i] == old(self).named_subjects@[i]);
                    assert(nv[j] == old(self).named_subjects@[j]);
                }
            }
            let uv = self.used_names@;
            assert(forall|i: int, j: int|
            0 <= i < j < uv.len() ==> (#[trigger] uv[i]).0@
                != (#[trigger] uv[j]).0@);
            assert(forall|i: int|
            0 <= i < uv.len() ==> {
                &&& self.uses@.contains_key((#[trigger] uv[i]).0@)
                &&& self.uses@[uv[i].0@] == uv[i].1 as nat
            });
            assert(forall|n: Seq<char>|
            #[trigger] self.uses@.contains_key(n) ==> exists|i: int|
                0 <= i < uv.len() && (#[trigger] uv[i]).0@ == n);
        }
        name
    }
}

proof fn lemma_digit_char_injective(d: int, e: int)
    requires
        0 <= d < 10,
        0 <= e < 10,
        crate::text::digit_char(d) == crate::text::digit_char(e),
    ensures
        d == e,
{
    assert(crate::text::digit_char(d) as int == 48 + d);
    assert(crate::text::digit_char(e) as int == 48 + e);
}

proof fn lemma_nat_decimal_injective(a: nat, b: nat)
    requires
        nat_decimal(a) == nat_decimal(b),
    ensures
        a == b,
    decreases a,
{
    lemma_nat_decimal_len(a / 10);
    lemma_nat_decimal_len(b / 10);
    let da = nat_decimal(a);
    let db = nat_decimal(b);
    if a < 10 && b < 10 {
        assert(da == seq![crate::text::digit_char(a as int)]);
        assert(db == seq![crate::text::digit_char(b as int)]);
        assert(da[0] == db[0]);
        assert(da[0] == crate::text::digit_char(a as int));
        assert(db[0] == crate::text::digit_char(b as int));
        lemma_digit_char_injective(a as int, b as int);
    } else if a < 10 {
        assert(da.len() == 1);
        assert(db.len() == nat_decimal(b / 10).len() + 1);
        assert(nat_decimal(b / 10).len() >= 1);
    } else if b < 10 {
        assert(db.len() == 1);
        assert(da.len() == nat_decimal(a / 10).len() + 1);
        assert(nat_decimal(a / 10).len() >= 1);
    } else {
        let pa = nat_decimal(a / 10);
        let pb = nat_decimal(b / 10);
        assert(da.len() == pa.len() + 1);
        assert(db.len() == pb.len() + 1);
        assert(da[da.len() - 1] == db[db.len() - 1]);
        assert(da[da.len() - 1] == crate::text::digit_char((a % 10) as int));
        assert(db[db.len() - 1] == crate::text::digit_char((b % 10) as int));
        lemma_digit_char_injective((a % 10) as int, (b % 10) as int);
        assert(da.drop_last() == pa);
        assert(db.drop_last() == pb);
        lemma_nat_decimal_injective(a / 10, b / 10);
    }
}

proof fn lemma_nat_decimal_len(n: nat)
    ensures
        nat_decimal(n).len() >= 1,
    decreases n,
{
    if n >= 10 {
        lemma_nat_decimal_len(n / 10);
    }
}

/// Subjects that ask for the same name get different names: the first
/// gets the name, each later one the name with its own number after it.
pub proof fn law_same_request_different_names(requested: Seq<char>, c1: nat, c2: nat)
    requires
        1 <= c1 < c2,
    ensures
        numbered_name(requested, c1) != numbered_name(requested, c2),
{
    lemma_nat_decimal_len(c2);
    if c1 == 1 {
        assert(numbered_name(requested, c2).len() > requested.len());
    } else {
        let n1 = numbered_name(requested, c1);
        let n2 = numbered_name(requested, c2);
        if n1 == n2 {
            lemma_nat_decimal_len(c1);
            assert(n1 == requested + nat_decimal(c1));
            assert(n2 == requested + nat_decimal(c2));
            assert(n1.len() == n2.len());
            assert(nat_decimal(c1).len() == nat_decimal(c2).len());
            assert(nat_decimal(c1) =~= n1.subrange(requested.len() as int, n1.len() as int));
            assert(nat_decimal(c2) =~= n2.subrange(requested.len() as int, n2.len() as int));
            lemma_nat_decimal_injective(c1, c2);
        }
    }
}

} // verus!
