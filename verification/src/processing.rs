//! The structs of query variables that generated code declares, and which
//! of them each generated fragment uses.

use vstd::prelude::*;
use crate::executable::VariableDefinition;
use crate::text::str_eq;

verus! {

/// Whether an input of the scalar named `name` is borrowed (`String`, `ID`).
pub fn type_requires_lifetime(name: &str) -> (r: bool)
    ensures
        r == (name@ == seq!['S', 't', 'r', 'i', 'n', 'g'] || name@ == seq!['I', 'D']),
{
    proof {
        reveal_strlit("String");
        reveal_strlit("ID");
        assert("String"@ =~= seq!['S', 't', 'r', 'i', 'n', 'g']);
        assert("ID"@ =~= seq!['I', 'D']);
    }
    str_eq(name, "String") || str_eq(name, "ID")
}

/// Whether a scalar named `name` is one of GraphQL's built-in scalars.
pub fn scalar_is_builtin(name: &str) -> (r: bool)
    ensures
        r == (name@ == seq!['S', 't', 'r', 'i', 'n', 'g'] || name@ == seq!['I', 'n', 't'] || name@
            == seq!['B', 'o', 'o', 'l', 'e', 'a', 'n'] || name@ == seq!['I', 'D'] || name@ == seq![
            'F',
            'l',
            'o',
            'a',
            't',
        ]),
{
    proof {
        reveal_strlit("String");
        reveal_strlit("Int");
        reveal_strlit("Boolean");
        reveal_strlit("ID");
        reveal_strlit("Float");
        assert("String"@ =~= seq!['S', 't', 'r', 'i', 'n', 'g']);
        assert("Int"@ =~= seq!['I', 'n', 't']);
        assert("Boolean"@ =~= seq!['B', 'o', 'o', 'l', 'e', 'a', 'n']);
        assert("ID"@ =~= seq!['I', 'D']);
        assert("Float"@ =~= seq!['F', 'l', 'o', 'a', 't']);
    }
    str_eq(name, "String") || str_eq(name, "Int") || str_eq(name, "Boolean") || str_eq(name, "ID")
        || str_eq(name, "Float")
}

/// A field of a variables struct: a variable (with the position of its
/// definition among its operation's variable definitions), or a nested
/// variables struct.
pub enum VariableStructField {
    Variable { position: usize, definition: VariableDefinition },
    NestedStruct { name: String },
}

impl VariableStructField {
    /// The name of the variable or of the nested struct.
    pub open spec fn spec_name(&self) -> Seq<char> {
        match self {
            VariableStructField::Variable { definition, .. } => definition.name@,
            VariableStructField::NestedStruct { name } => name@,
        }
    }

    /// The name of the variable or of the nested struct.
    pub fn name(&self) -> (r: &str)
        ensures
            r@ == self.spec_name(),
    {
        match self {
            VariableStructField::Variable { definition, .. } => definition.name.as_str(),
            VariableStructField::NestedStruct { name } => name.as_str(),
        }
    }
}

/// A struct of query variables.
pub struct VariableStruct {
    pub name: String,
    pub fields: Vec<VariableStructField>,
}

/// A generated fragment: a query fragment or an inline fragment, by the
/// position of its node.
#[derive(Clone, Copy, Debug, PartialEq, Eq, Structural)]
pub enum FragmentId {
    Query(usize),
    Inline(usize),
}

/// The position of a fragment id in the order fragment ids sort in: every
/// query fragment before every inline fragment, each kind by node.
pub open spec fn fragment_key(id: FragmentId) -> int {
    match id {
        FragmentId::Query(n) => n as int,
        FragmentId::Inline(n) => usize::MAX + 1 + n,
    }
}

/// Whether `a` sorts before `b`.
pub fn fragment_id_lt(a: FragmentId, b: FragmentId) -> (r: bool)
    ensures
        r == (fragment_key(a) < fragment_key(b)),
{
    match (a, b) {
        (FragmentId::Query(x), FragmentId::Query(y)) => x < y,
        (FragmentId::Inline(x), FragmentId::Inline(y)) => x < y,
        (FragmentId::Query(_), FragmentId::Inline(_)) => true,
        (FragmentId::Inline(_), FragmentId::Query(_)) => false,
    }
}

proof fn lemma_fragment_key_injective(a: FragmentId, b: FragmentId)
    ensures
        fragment_key(a) == fragment_key(b) ==> a == b,
{
}

/// Whether `m` lists a struct for the fragment `id`.
pub open spec fn maps_fragment(m: Seq<(FragmentId, usize)>, id: FragmentId) -> bool {
    exists|j: int| 0 <= j < m.len() && (#[trigger] m[j]).0 == id
}

/// `e` is the first entry of `uses` for its fragment.
pub open spec fn first_use(uses: Seq<(FragmentId, usize)>, e: (FragmentId, usize)) -> bool {
    exists|j: int|
        0 <= j < uses.len() && #[trigger] uses[j] == e && forall|j2: int| 0 <= j2 < j ==> (#[trigger] uses[j2]).0 != e.0
}

/// The variables structs of a query, and the struct each fragment that
/// takes variables uses.
pub struct VariableStructs {
    pub structs: Vec<VariableStruct>,
    pub mapping_sorted: Vec<(FragmentId, usize)>,
}

impl VariableStructs {
    /// Which struct each fragment uses, by fragment, sorted by fragment id.
    pub open spec fn mapping(&self) -> Seq<(FragmentId, usize)> {
        self.mapping_sorted@
    }

    /// The mapping is sorted by fragment id without repeats, and names
    /// structs that exist.
    pub open spec fn wf(&self) -> bool {
        &&& forall|i: int, j: int|
            0 <= i < j < self.mapping().len() ==> fragment_key((#[trigger] self.mapping()[i]).0)
                < fragment_key((#[trigger] self.mapping()[j]).0)
        &&& forall|i: int|
            0 <= i < self.mapping().len() ==> (#[trigger] self.mapping()[i]).1 < self.structs@.len()
    }

    /// No structs.
    pub fn new() -> (r: VariableStructs)
        ensures
            r.wf(),
            r.structs@.len() == 0,
            r.mapping().len() == 0,
    {
        VariableStructs { structs: Vec::new(), mapping_sorted: Vec::new() }
    }

    /// The structs, with `uses` saying which struct each fragment uses:
    /// each fragment listed gets the struct of its first entry.
    pub fn from_parts(structs: Vec<VariableStruct>, uses: Vec<(FragmentId, usize)>) -> (r: VariableStructs)
        requires
            forall|i: int| 0 <= i < uses@.len() ==> (#[trigger] uses@[i]).1 < structs@.len(),
        ensures
            r.wf(),
            r.structs@ == structs@,
            forall|i: int| 0 <= i < r.mapping().len() ==> first_use(uses@, #[trigger] r.mapping()[i]),
            forall|i: int| 0 <= i < uses@.len() ==> maps_fragment(r.mapping(), (#[trigger] uses@[i]).0),
    {
        let mut sorted: Vec<(FragmentId, usize)> = Vec::new();
        let mut i: usize = 0;
        while i < uses.len()
            invariant
                i <= uses@.len(),
                forall|a: int, b: int|
                    0 <= a < b < sorted@.len() ==> fragment_key((#[trigger] sorted@[a]).0) < fragment_key(
                        (#[trigger] sorted@[b]).0,
                    ),
                forall|a: int| 0 <= a < sorted@.len() ==> first_use(uses@, #[trigger] sorted@[a]),
                forall|a: int| 0 <= a < sorted@.len() ==> (#[trigger] sorted@[a]).1 < structs@.len(),
                forall|a: int| 0 <= a < uses@.len() ==> (#[trigger] uses@[a]).1 < structs@.len(),
                forall|a: int| 0 <= a < i ==> maps_fragment(sorted@, (#[trigger] uses@[a]).0),
            decreases uses.len() - i,
        {
            let entry = uses[i];
            // find the insertion point
            let mut p: usize = 0;
            while p < sorted.len() && fragment_id_lt(sorted[p].0, entry.0)
                invariant
                    p <= sorted@.len(),
                    forall|a: int| 0 <= a < p ==> fragment_key((#[trigger] sorted@[a]).0) < fragment_key(entry.0),
                decreases sorted.len() - p,
            {
                p = p + 1;
            }
            let ghost old_sorted = sorted@;
            if p < sorted.len() && sorted[p].0 == entry.0 {
                // already mapped
                assert(sorted@[p as int].0 == uses@[i as int].0);
                assert(maps_fragment(sorted@, uses@[i as int].0));
            } else {
                sorted.insert(p, entry);
                proof {
                    assert forall|a: int, b: int|
                        0 <= a < b < sorted@.len() implies fragment_key((#[trigger] sorted@[a]).0) < fragment_key(
                            (#[trigger] sorted@[b]).0,
                        ) by {
                        if b < p {
                            assert(sorted@[a] == old_sorted[a] && sorted@[b] == old_sorted[b]);
                        } else if b == p {
                            assert(sorted@[a] == old_sorted[a]);
                        } else if a == p {
                            assert(sorted@[b] == old_sorted[b - 1]);
                            if b - 1 > p {
                                assert(fragment_key(old_sorted[p as int].0) < fragment_key(old_sorted[b - 1].0));
                            }
                            assert(fragment_key(old_sorted[p as int].0) >= fragment_key(entry.0));
                            lemma_fragment_key_injective(old_sorted[p as int].0, entry.0);
                        } else if a < p {
                            assert(sorted@[a] == old_sorted[a] && sorted@[b] == old_sorted[b - 1]);
                        } else {
                            assert(sorted@[a] == old_sorted[a - 1] && sorted@[b] == old_sorted[b - 1]);
                        }
                    }
                    assert forall|j2: int| 0 <= j2 < i implies (#[trigger] uses@[j2]).0 != entry.0 by {
                        if uses@[j2].0 == entry.0 {
                            assert(maps_fragment(old_sorted, uses@[j2].0));
                            let q = choose|q: int| 0 <= q < old_sorted.len() && (#[trigger] old_sorted[q]).0 == uses@[j2].0;
                            if q < p {
                                assert(fragment_key(old_sorted[q].0) < fragment_key(entry.0));
                            } else if q == p {
                            } else {
                                assert(fragment_key(old_sorted[p as int].0) < fragment_key(old_sorted[q].0));
                                assert(fragment_key(old_sorted[p as int].0) >= fragment_key(entry.0));
                            }
                        }
                    }
                    assert(uses@[i as int] == entry);
                    assert(first_use(uses@, entry));
                    assert forall|a: int| 0 <= a < sorted@.len() implies first_use(uses@, #[trigger] sorted@[a]) by {
                        if a < p {
                            assert(sorted@[a] == old_sorted[a]);
                        } else if a > p {
                            assert(sorted@[a] == old_sorted[a - 1]);
                        }
                    }
                    assert forall|a: int| 0 <= a < sorted@.len() implies (#[trigger] sorted@[a]).1 < structs@.len() by {
                        if a < p {
                            assert(sorted@[a] == old_sorted[a]);
                        } else if a > p {
                            assert(sorted@[a] == old_sorted[a - 1]);
                        }
                    }
                    assert forall|a: int| 0 <= a < i implies maps_fragment(sorted@, (#[trigger] uses@[a]).0) by {
                        let j = choose|j: int| 0 <= j < old_sorted.len() && (#[trigger] old_sorted[j]).0 == uses@[a].0;
                        if j < p {
                            assert(sorted@[j] == old_sorted[j]);
                        } else {
                            assert(sorted@[j + 1] == old_sorted[j]);
                        }
                    }
                    assert(sorted@[p as int].0 == uses@[i as int].0);
                    assert(maps_fragment(sorted@, uses@[i as int].0));
                }
            }
            i = i + 1;
        }
        VariableStructs { structs, mapping_sorted: sorted }
    }

    /// The name of the variables struct that the fragment `id` uses, if any.
    pub fn variables_name_for_fragment(&self, id: FragmentId) -> (r: Option<&str>)
        requires
            self.wf(),
        ensures
            r is Some <==> exists|i: int| 0 <= i < self.mapping().len() && (#[trigger] self.mapping()[i]).0 == id,
            forall|i: int|
                0 <= i < self.mapping().len() && (#[trigger] self.mapping()[i]).0 == id ==> (r matches Some(n)
                    && n@ == self.structs@[self.mapping()[i].1 as int].name@),
    {
        let mut lo: usize = 0;
        let mut hi: usize = self.mapping_sorted.len();
        while lo < hi
            invariant
                self.wf(),
                lo <= hi <= self.mapping_sorted@.len(),
                forall|a: int| 0 <= a < lo ==> fragment_key((#[trigger] self.mapping_sorted@[a]).0) < fragment_key(id),
                forall|a: int|
                    hi <= a < self.mapping_sorted@.len() ==> fragment_key(id) < fragment_key(
                        (#[trigger] self.mapping_sorted@[a]).0,
                    ),
            decreases hi - lo,
        {
            let mid = lo + (hi - lo) / 2;
            let key = self.mapping_sorted[mid].0;
            if fragment_id_lt(key, id) {
                lo = mid + 1;
            } else if fragment_id_lt(id, key) {
                hi = mid;
            } else {
                proof {
                    lemma_fragment_key_injective(key, id);
                    assert forall|i: int|
                        0 <= i < self.mapping().len() && (#[trigger] self.mapping()[i]).0 == id implies i == mid by {
                        if i < mid {
                            assert(fragment_key(self.mapping()[i].0) < fragment_key(self.mapping()[mid as int].0));
                        } else if i > mid {
                            assert(fragment_key(self.mapping()[mid as int].0) < fragment_key(self.mapping()[i].0));
                        }
                    }
                }
                let index = self.mapping_sorted[mid].1;
                return Some(self.structs[index].name.as_str());
            }
        }
        proof {
            assert forall|i: int| 0 <= i < self.mapping().len() implies (#[trigger] self.mapping()[i]).0 != id by {
                if i < lo {
                } else {
                    assert(hi <= i);
                }
            }
        }
        None
    }
}

} // verus!
