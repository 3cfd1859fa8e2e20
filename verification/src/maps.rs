//! The option maps a generator keeps: Rust types for scalars by scalar
//! name, and Rust types for fields by type and field name.

use vstd::prelude::*;
use crate::text::str_eq;

verus! {

/// Rust types for GraphQL scalars, by scalar name.
pub struct ScalarTypeMap {
    entries: Vec<(String, String)>,
    model: Ghost<Map<Seq<char>, Seq<char>>>,
}

impl ScalarTypeMap {
    /// The Rust type for each scalar name that has one.
    pub closed spec fn view(&self) -> Map<Seq<char>, Seq<char>> {
        self.model@
    }

    /// Each scalar name has one entry, and the entries are the map.
    pub closed spec fn wf(&self) -> bool {
        &&& forall|i: int, j: int|
            0 <= i < j < self.entries@.len() ==> (#[trigger] self.entries@[i]).0@ != (
            #[trigger] self.entries@[j]).0@
        &&& forall|i: int|
            0 <= i < self.entries@.len() ==> {
                &&& self.model@.contains_key((#[trigger] self.entries@[i]).0@)
                &&& self.model@[self.entries@[i].0@] == self.entries@[i].1@
            }
        &&& forall|k: Seq<char>|
            #[trigger] self.model@.contains_key(k) ==> exists|i: int|
                0 <= i < self.entries@.len() && (#[trigger] self.entries@[i]).0@ == k
    }

    /// No scalar has a Rust type.
    pub fn new() -> (r: ScalarTypeMap)
        ensures
            r.wf(),
            r.view() == Map::<Seq<char>, Seq<char>>::empty(),
    {
        ScalarTypeMap { entries: Vec::new(), model: Ghost(Map::empty()) }
    }

    fn find(&self, name: &str) -> (r: Option<usize>)
        requires
            self.wf(),
        ensures
            r is Some <==> self.view().contains_key(name@),
            r matches Some(i) ==> i < self.entries@.len() && self.entries@[i as int].0@ == name@
                && self.view()[name@] == self.entries@[i as int].1@,
    {
        let mut i: usize = 0;
        while i < self.entries.len()
            invariant
                self.wf(),
                i <= self.entries@.len(),
                forall|j: int| 0 <= j < i ==> (#[trigger] self.entries@[j]).0@ != name@,
            decreases self.entries.len() - i,
        {
            if str_eq(self.entries[i].0.as_str(), name) {
                return Some(i);
            }
            i = i + 1;
        }
        proof {
            if self.model@.contains_key(name@) {
                let k = choose|k: int| 0 <= k < self.entries@.len() && (#[trigger] self.entries@[k]).0@ == name@;
                assert(self.entries@[k].0@ != name@);
            }
        }
        None
    }

    /// The Rust type for the scalar `name`, if it has one.
    pub fn get(&self, name: &str) -> (r: Option<&str>)
        requires
            self.wf(),
        ensures
            r is Some <==> self.view().contains_key(name@),
            r matches Some(t) ==> t@ == self.view()[name@],
    {
        match self.find(name) {
            Some(i) => Some(self.entries[i].1.as_str()),
            None => None,
        }
    }

    /// Gives the scalar `name` the Rust type `rust_type`, in place of any
    /// it had.
    pub fn insert(&mut self, name: String, rust_type: String)
        requires
            old(self).wf(),
        ensures
            final(self).wf(),
            final(self).view() == old(self).view().insert(name@, rust_type@),
    {
        let ghost old_entries = self.entries@;
        let ghost old_model = self.model@;
        let ghost k = name@;
        let ghost v = rust_type@;
        match self.find(name.as_str()) {
            Some(i) => {
                self.entries.set(i, (name, rust_type));
            },
            None => {
                self.entries.push((name, rust_type));
            },
        }
        proof {
            self.model@ = old_model.insert(k, v);
            let e = self.entries@;
            assert forall|i: int, j: int| 0 <= i < j < e.len() implies (#[trigger] e[i]).0@ != (#[trigger] e[j]).0@ by {
                if j == old_entries.len() {
                    assert(old_model.contains_key(old_entries[i].0@));
                } else {
                    if e[i] != old_entries[i] {
                        assert(old_model.contains_key(k));
                    }
                    if e[j] != old_entries[j] {
                        assert(e[j].0@ == k);
                    }
                }
            }
            assert forall|i: int| 0 <= i < e.len() implies {
                &&& self.model@.contains_key((#[trigger] e[i]).0@)
                &&& self.model@[e[i].0@] == e[i].1@
            } by {
                if i < old_entries.len() && e[i] == old_entries[i] {
                    assert(old_model.contains_key(old_entries[i].0@));
                }
            }
            assert forall|key: Seq<char>| #[trigger] self.model@.contains_key(key) implies exists|i: int|
                0 <= i < e.len() && (#[trigger] e[i]).0@ == key by {
                if key == k {
                    if old_model.contains_key(k) {
                        let i = choose|i: int| 0 <= i < old_entries.len() && (#[trigger] old_entries[i]).0@ == k;
                        assert(e[i].0@ == k);
                    } else {
                        assert(e[e.len() - 1].0@ == k);
                    }
                } else {
                    let i = choose|i: int| 0 <= i < old_entries.len() && (#[trigger] old_entries[i]).0@ == key;
                    assert(e[i] == old_entries[i]);
                }
            }
        }
    }
}

/// Rust types for fields, by the name of the type and of the field.
pub struct OverrideMap {
    entries: Vec<(String, String, String)>,
    model: Ghost<Map<(Seq<char>, Seq<char>), Seq<char>>>,
}

impl OverrideMap {
    /// The Rust type for each field that has one.
    pub closed spec fn view(&self) -> Map<(Seq<char>, Seq<char>), Seq<char>> {
        self.model@
    }

    /// Each field has one entry, and the entries are the map.
    pub closed spec fn wf(&self) -> bool {
        &&& forall|i: int, j: int|
            0 <= i < j < self.entries@.len() ==> ((#[trigger] self.entries@[i]).0@, self.entries@[i].1@)
                != ((#[trigger] self.entries@[j]).0@, self.entries@[j].1@)
        &&& forall|i: int|
            0 <= i < self.entries@.len() ==> {
                &&& self.model@.contains_key(((#[trigger] self.entries@[i]).0@, self.entries@[i].1@))
                &&& self.model@[(self.entries@[i].0@, self.entries@[i].1@)] == self.entries@[i].2@
            }
        &&& forall|k: (Seq<char>, Seq<char>)|
            #[trigger] self.model@.contains_key(k) ==> exists|i: int|
                0 <= i < self.entries@.len() && ((#[trigger] self.entries@[i]).0@, self.entries@[i].1@)
                    == k
    }

    /// No field has a Rust type.
    pub fn new() -> (r: OverrideMap)
        ensures
            r.wf(),
            r.view() == Map::<(Seq<char>, Seq<char>), Seq<char>>::empty(),
    {
        OverrideMap { entries: Vec::new(), model: Ghost(Map::empty()) }
    }

    fn find(&self, ty: &str, field: &str) -> (r: Option<usize>)
        requires
            self.wf(),
        ensures
            r is Some <==> self.view().contains_key((ty@, field@)),
            r matches Some(i) ==> i < self.entries@.len() && self.entries@[i as int].0@ == ty@
                && self.entries@[i as int].1@ == field@ && self.view()[(ty@, field@)]
                == self.entries@[i as int].2@,
    {
        let mut i: usize = 0;
        while i < self.entries.len()
            invariant
                self.wf(),
                i <= self.entries@.len(),
                forall|j: int|
                    0 <= j < i ==> ((#[trigger] self.entries@[j]).0@, self.entries@[j].1@) != (ty@, field@),
            decreases self.entries.len() - i,
        {
            if str_eq(self.entries[i].0.as_str(), ty) && str_eq(self.entries[i].1.as_str(), field) {
                return Some(i);
            }
            i = i + 1;
        }
        proof {
            if self.model@.contains_key((ty@, field@)) {
                let k = choose|k: int|
                    0 <= k < self.entries@.len() && ((#[trigger] self.entries@[k]).0@, self.entries@[k].1@) == (
                    ty@,
                    field@,
                );
                assert((self.entries@[k].0@, self.entries@[k].1@) != (ty@, field@));
            }
        }
        None
    }

    /// The Rust type for the field `field` of the type `ty`, if it has one.
    pub fn get(&self, ty: &str, field: &str) -> (r: Option<&str>)
        requires
            self.wf(),
        ensures
            r is Some <==> self.view().contains_key((ty@, field@)),
            r matches Some(t) ==> t@ == self.view()[(ty@, field@)],
    {
        match self.find(ty, field) {
            Some(i) => Some(self.entries[i].2.as_str()),
            None => None,
        }
    }

    /// Gives the field `field` of the type `ty` the Rust type `rust_type`,
    /// in place of any it had.
    pub fn insert(&mut self, ty: String, field: String, rust_type: String)
        requires
            old(self).wf(),
        ensures
            final(self).wf(),
            final(self).view() == old(self).view().insert((ty@, field@), rust_type@),
    {
        let ghost old_entries = self.entries@;
        let ghost old_model = self.model@;
        let ghost k = (ty@, field@);
        let ghost v = rust_type@;
        match self.find(ty.as_str(), field.as_str()) {
            Some(i) => {
                self.entries.set(i, (ty, field, rust_type));
            },
            None => {
                self.entries.push((ty, field, rust_type));
            },
        }
        proof {
            self.model@ = old_model.insert(k, v);
            let e = self.entries@;
            assert forall|i: int, j: int| 0 <= i < j < e.len() implies ((#[trigger] e[i]).0@, e[i].1@) != (
            (#[trigger] e[j]).0@, e[j].1@) by {
                if j == old_entries.len() {
                    assert(old_model.contains_key((old_entries[i].0@, old_entries[i].1@)));
                } else {
                    if e[i] != old_entries[i] {
                        assert(old_model.contains_key(k));
                    }
                    if e[j] != old_entries[j] {
                        assert((e[j].0@, e[j].1@) == k);
                    }
                }
            }
            assert forall|i: int| 0 <= i < e.len() implies {
                &&& self.model@.contains_key(((#[trigger] e[i]).0@, e[i].1@))
                &&& self.model@[(e[i].0@, e[i].1@)] == e[i].2@
            } by {
                if i < old_entries.len() && e[i] == old_entries[i] {
                    assert(old_model.contains_key((old_entries[i].0@, old_entries[i].1@)));
                }
            }
            assert forall|key: (Seq<char>, Seq<char>)| #[trigger] self.model@.contains_key(key) implies exists|i: int|
                0 <= i < e.len() && ((#[trigger] e[i]).0@, e[i].1@) == key by {
                if key == k {
                    if old_model.contains_key(k) {
                        let i = choose|i: int|
                            0 <= i < old_entries.len() && ((#[trigger] old_entries[i]).0@, old_entries[i].1@) == k;
                        assert((e[i].0@, e[i].1@) == k);
                    } else {
                        assert((e[e.len() - 1].0@, e[e.len() - 1].1@) == k);
                    }
                } else {
                    let i = choose|i: int|
                        0 <= i < old_entries.len() && ((#[trigger] old_entries[i]).0@, old_entries[i].1@) == key;
                    assert(e[i] == old_entries[i]);
                }
            }
        }
    }
}

} // verus!
