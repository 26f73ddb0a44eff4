use vstd::prelude::*;
use vstd::string::StringSliceAdditionalSpecFns;

verus! {

/// What the parser needs to know of a function: where it is stored, how
/// many arguments it takes, and whether calls on constant arguments may be
/// evaluated once at compile time.
#[derive(Debug, Clone, Copy, PartialEq, Eq, Structural)]
pub struct Signature {
    pub index: usize,
    pub arity: usize,
    pub pure: bool,
}

/// The model of a scope: variable names by slot, and function entries
/// (name, arity, purity) by function index.
#[verifier::ext_equal]
pub struct ScopeModel {
    pub variables: Seq<Seq<u8>>,
    pub functions: Seq<(Seq<u8>, usize, bool)>,
}

/// The index of the first occurrence of `name` in `names` at or after `from`.
pub open spec fn find_from(names: Seq<Seq<u8>>, name: Seq<u8>, from: int) -> Option<nat>
    decreases names.len() - from,
{
    if from < 0 || from >= names.len() {
        None
    } else if names[from] == name {
        Some(from as nat)
    } else {
        find_from(names, name, from + 1)
    }
}

/// The index of the first occurrence of `name` in `names`.
pub open spec fn first_index(names: Seq<Seq<u8>>, name: Seq<u8>) -> Option<nat> {
    find_from(names, name, 0)
}

pub open spec fn function_names(functions: Seq<(Seq<u8>, usize, bool)>) -> Seq<Seq<u8>> {
    functions.map_values(|e: (Seq<u8>, usize, bool)| e.0)
}

impl ScopeModel {
    /// The slot of the variable called `name`, if one is defined.
    pub open spec fn variable_slot(self, name: Seq<u8>) -> Option<nat> {
        first_index(self.variables, name)
    }

    /// The signature of the function called `name`, if one is defined.
    pub open spec fn function_signature(self, name: Seq<u8>) -> Option<Signature> {
        match first_index(function_names(self.functions), name) {
            Some(k) => Some(
                Signature {
                    index: k as usize,
                    arity: self.functions[k as int].1,
                    pure: self.functions[k as int].2,
                },
            ),
            None => None,
        }
    }

    /// No two variables and no two functions share a name.
    pub open spec fn names_distinct(self) -> bool {
        &&& forall|i: int, j: int|
            0 <= i < j < self.variables.len() ==> self.variables[i] != self.variables[j]
        &&& forall|i: int, j: int|
            0 <= i < j < self.functions.len() ==> self.functions[i].0 != self.functions[j].0
    }

    /// The scope after defining the variable `name`: unchanged if it is
    /// already defined, else with a new slot at the end.
    pub open spec fn with_variable(self, name: Seq<u8>) -> ScopeModel {
        if self.variable_slot(name) is Some {
            self
        } else {
            ScopeModel { variables: self.variables.push(name), functions: self.functions }
        }
    }

    /// The scope after defining the function `name`: an existing entry of
    /// that name is replaced in place, else a new entry is added at the end.
    pub open spec fn with_function(self, name: Seq<u8>, arity: usize, pure: bool) -> ScopeModel {
        match first_index(function_names(self.functions), name) {
            Some(k) => ScopeModel {
                variables: self.variables,
                functions: self.functions.update(k as int, (name, arity, pure)),
            },
            None => ScopeModel {
                variables: self.variables,
                functions: self.functions.push((name, arity, pure)),
            },
        }
    }
}

proof fn lemma_find_from_bounds(names: Seq<Seq<u8>>, name: Seq<u8>, from: int)
    requires
        0 <= from,
    ensures
        find_from(names, name, from) matches Some(k) ==> from <= k < names.len() && names[k as int]
            == name,
        find_from(names, name, from) is None ==> forall|j: int|
            from <= j < names.len() ==> names[j] != name,
    decreases names.len() - from,
{
    if 0 <= from < names.len() && names[from] != name {
        lemma_find_from_bounds(names, name, from + 1);
    }
}

/// `first_index` finds the first occurrence of a name, and only misses a
/// name that does not occur.
pub proof fn lemma_first_index(names: Seq<Seq<u8>>, name: Seq<u8>)
    ensures
        first_index(names, name) matches Some(k) ==> k < names.len() && names[k as int] == name
            && forall|j: int| 0 <= j < k ==> names[j] != name,
        first_index(names, name) is None ==> !names.contains(name),
{
    lemma_find_from_bounds(names, name, 0);
    if let Some(k) = first_index(names, name) {
        assert forall|j: int| 0 <= j < k implies names[j] != name by {
            if names[j] == name {
                lemma_find_first(names, name, 0, j);
            }
        }
    }
}

proof fn lemma_find_first(names: Seq<Seq<u8>>, name: Seq<u8>, from: int, j: int)
    requires
        0 <= from <= j < names.len(),
        names[j] == name,
    ensures
        find_from(names, name, from) matches Some(k) && k <= j,
    decreases j - from,
{
    if names[from] != name {
        lemma_find_first(names, name, from + 1, j);
    }
}

/// Appending a name at the end does not change where an earlier name is
/// found, and a name not yet present is found at the end.
pub proof fn lemma_first_index_push(names: Seq<Seq<u8>>, name: Seq<u8>, probe: Seq<u8>)
    ensures
        first_index(names, probe) is Some ==> first_index(names.push(name), probe) == first_index(
            names,
            probe,
        ),
        first_index(names, probe) is None ==> first_index(names.push(name), probe) == (if probe
            == name {
            Some(names.len())
        } else {
            None::<nat>
        }),
{
    lemma_first_index(names, probe);
    lemma_first_index(names.push(name), probe);
    let pushed = names.push(name);
    if let Some(k) = first_index(names, probe) {
        assert(pushed[k as int] == probe);
        lemma_find_first(pushed, probe, 0, k as int);
        if let Some(k2) = first_index(pushed, probe) {
            if k2 < k {
                assert(names[k2 as int] == probe);
            }
        }
    } else {
        if probe == name {
            assert(pushed[names.len() as int] == probe);
            lemma_find_first(pushed, probe, 0, names.len() as int);
            if let Some(k2) = first_index(pushed, probe) {
                if k2 < names.len() {
                    assert(names[k2 as int] == probe);
                    assert(names.contains(probe));
                }
            }
        } else {
            if let Some(k2) = first_index(pushed, probe) {
                if k2 < names.len() {
                    assert(names[k2 as int] == probe);
                    assert(names.contains(probe));
                }
            }
        }
    }
}

/// Defining a name keeps names distinct.
pub proof fn lemma_definitions_keep_names_distinct(
    m: ScopeModel,
    name: Seq<u8>,
    arity: usize,
    pure: bool,
)
    requires
        m.names_distinct(),
    ensures
        m.with_variable(name).names_distinct(),
        m.with_function(name, arity, pure).names_distinct(),
{
    lemma_first_index(m.variables, name);
    let names = function_names(m.functions);
    lemma_first_index(names, name);
    let v = m.with_variable(name).variables;
    assert forall|i: int, j: int| 0 <= i < j < v.len() implies v[i] != v[j] by {
        if j == m.variables.len() {
            assert(m.variables[i] == v[i]);
            assert(m.variables.contains(m.variables[i]));
        }
    }
    let f = m.with_function(name, arity, pure).functions;
    assert forall|i: int, j: int| 0 <= i < j < f.len() implies f[i].0 != f[j].0 by {
        assert(names[i] == m.functions[i].0);
        if j < m.functions.len() {
            assert(names[j] == m.functions[j].0);
        }
        if first_index(names, name) is None && j == m.functions.len() {
            assert(names.contains(names[i]));
        }
    }
}

/// Two byte strings are equal exactly when their bytes are.
pub fn bytes_equal(a: &[u8], b: &[u8]) -> (r: bool)
    ensures
        r == (a@ == b@),
{
    if a.len() != b.len() {
        return false;
    }
    let mut i: usize = 0;
    while i < a.len()
        invariant
            a@.len() == b@.len(),
            i <= a@.len(),
            forall|k: int| 0 <= k < i ==> a@[k] == b@[k],
        decreases a@.len() - i,
    {
        if a[i] != b[i] {
            assert(a@[i as int] != b@[i as int]);
            return false;
        }
        i = i + 1;
    }
    assert(a@ =~= b@);
    true
}

struct FunctionEntry<F> {
    name: Vec<u8>,
    arity: usize,
    pure: bool,
    value: F,
}

/// The names an expression may use: variables, each with a slot index and
/// a value of type `V`, and functions, each with an index, an arity, a
/// purity flag and a value of type `F`. Defining a name that already exists
/// keeps its index and replaces the definition.
pub struct Scope<V, F> {
    variables: Vec<(Vec<u8>, V)>,
    functions: Vec<FunctionEntry<F>>,
}

impl<V, F> View for Scope<V, F> {
    type V = ScopeModel;

    closed spec fn view(&self) -> ScopeModel {
        ScopeModel {
            variables: Seq::new(self.variables@.len(), |i: int| self.variables@[i].0@),
            functions: Seq::new(
                self.functions@.len(),
                |i: int|
                    (
                        self.functions@[i].name@,
                        self.functions@[i].arity,
                        self.functions@[i].pure,
                    ),
            ),
        }
    }
}

impl<V, F> Scope<V, F> {
    /// The values of the variables, slot by slot.
    pub closed spec fn variable_values(&self) -> Seq<V> {
        Seq::new(self.variables@.len(), |i: int| self.variables@[i].1)
    }

    /// The values of the functions, index by index.
    pub closed spec fn function_values(&self) -> Seq<F> {
        Seq::new(self.functions@.len(), |i: int| self.functions@[i].value)
    }

    /// An empty scope.
    pub fn new() -> (s: Self)
        ensures
            s@.variables == Seq::<Seq<u8>>::empty(),
            s@.functions == Seq::<(Seq<u8>, usize, bool)>::empty(),
            s@.names_distinct(),
            s.variable_values() == Seq::<V>::empty(),
            s.function_values() == Seq::<F>::empty(),
    {
        let s = Scope { variables: Vec::new(), functions: Vec::new() };
        assert(s@.variables =~= Seq::<Seq<u8>>::empty());
        assert(s@.functions =~= Seq::<(Seq<u8>, usize, bool)>::empty());
        assert(s.variable_values() =~= Seq::<V>::empty());
        assert(s.function_values() =~= Seq::<F>::empty());
        s
    }

    /// The number of variable slots.
    pub fn variable_count(&self) -> (n: usize)
        ensures
            n == self@.variables.len(),
    {
        self.variables.len()
    }

    /// The number of function entries.
    pub fn function_count(&self) -> (n: usize)
        ensures
            n == self@.functions.len(),
    {
        self.functions.len()
    }

    /// The value of the variable in slot `k`.
    pub fn variable_value(&self, k: usize) -> (v: &V)
        requires
            k < self@.variables.len(),
        ensures
            *v == self.variable_values()[k as int],
    {
        &self.variables[k].1
    }

    /// The value of the function with index `k`.
    pub fn function_value(&self, k: usize) -> (v: &F)
        requires
            k < self@.functions.len(),
        ensures
            *v == self.function_values()[k as int],
    {
        &self.functions[k].value
    }

    /// The slot of the variable called `name`, if there is one.
    pub fn variable_slot(&self, name: &[u8]) -> (r: Option<usize>)
        ensures
            r matches Some(k) ==> self@.variable_slot(name@) == Some(k as nat),
            r is None ==> self@.variable_slot(name@) is None,
    {
        let mut i: usize = 0;
        while i < self.variables.len()
            invariant
                i <= self.variables@.len(),
                self@.variables.len() == self.variables@.len(),
                find_from(self@.variables, name@, 0) == find_from(self@.variables, name@, i as int),
            decreases self.variables@.len() - i,
        {
            if bytes_equal(self.variables[i].0.as_slice(), name) {
                return Some(i);
            }
            i = i + 1;
        }
        None
    }

    /// The signature of the function called `name`, if there is one.
    pub fn function_signature(&self, name: &[u8]) -> (r: Option<Signature>)
        ensures
            r == self@.function_signature(name@),
    {
        let ghost names = function_names(self@.functions);
        let mut i: usize = 0;
        while i < self.functions.len()
            invariant
                i <= self.functions@.len(),
                names.len() == self.functions@.len(),
                names == function_names(self@.functions),
                find_from(names, name@, 0) == find_from(names, name@, i as int),
            decreases self.functions@.len() - i,
        {
            let entry = &self.functions[i];
            assert(names[i as int] == entry.name@);
            if bytes_equal(entry.name.as_slice(), name) {
                return Some(Signature { index: i, arity: entry.arity, pure: entry.pure });
            }
            i = i + 1;
        }
        None
    }

    /// Defines the variable `name` with `value` and returns its slot: the
    /// slot it already had, whose value is replaced, or a new slot at the
    /// end.
    pub fn define_variable(&mut self, name: &str, value: V) -> (slot: usize)
        ensures
            final(self)@ == old(self)@.with_variable(name.spec_bytes()),
            old(self)@.names_distinct() ==> final(self)@.names_distinct(),
            old(self)@.variable_slot(name.spec_bytes()) matches Some(k) ==> slot == k,
            old(self)@.variable_slot(name.spec_bytes()) is None ==> slot == old(
                self,
            )@.variables.len(),
            final(self).variable_values() == (if slot < old(self)@.variables.len() {
                old(self).variable_values().update(slot as int, value)
            } else {
                old(self).variable_values().push(value)
            }),
            final(self).function_values() == old(self).function_values(),
    {
        let bytes = name.as_bytes();
        proof {
            if self@.names_distinct() {
                lemma_definitions_keep_names_distinct(self@, name.spec_bytes(), 0, false);
            }
        }
        let ghost before = self@;
        let ghost values = self.variable_values();
        let ghost others = self.function_values();
        match self.variable_slot(bytes) {
            Some(k) => {
                proof {
                    lemma_first_index(before.variables, name.spec_bytes());
                }
                let entry = (vstd::slice::slice_to_vec(bytes), value);
                self.variables.set(k, entry);
                assert(self@.variables =~= before.variables);
                assert(self@.functions =~= before.functions);
                assert(self.variable_values() =~= values.update(k as int, value));
                assert(self.function_values() =~= others);
                k
            },
            None => {
                let slot = self.variables.len();
                self.variables.push((vstd::slice::slice_to_vec(bytes), value));
                assert(self@.variables =~= before.variables.push(name.spec_bytes()));
                assert(self@.functions =~= before.functions);
                assert(self.variable_values() =~= values.push(value));
                assert(self.function_values() =~= others);
                slot
            },
        }
    }

    /// Defines the function `name` with `value` and returns its index: the
    /// index it already had, whose entry is replaced, or a new index at the
    /// end.
    pub fn define_function(&mut self, name: &str, arity: usize, pure: bool, value: F) -> (index:
        usize)
        ensures
            final(self)@ == old(self)@.with_function(name.spec_bytes(), arity, pure),
            old(self)@.names_distinct() ==> final(self)@.names_distinct(),
            first_index(function_names(old(self)@.functions), name.spec_bytes()) matches Some(k)
                ==> index == k,
            first_index(function_names(old(self)@.functions), name.spec_bytes()) is None ==> index
                == old(self)@.functions.len(),
            final(self).function_values() == (if index < old(self)@.functions.len() {
                old(self).function_values().update(index as int, value)
            } else {
                old(self).function_values().push(value)
            }),
            final(self).variable_values() == old(self).variable_values(),
    {
        let bytes = name.as_bytes();
        let ghost before = self@;
        let ghost values = self.function_values();
        let ghost others = self.variable_values();
        proof {
            if before.names_distinct() {
                lemma_definitions_keep_names_distinct(before, name.spec_bytes(), arity, pure);
            }
        }
        let count = self.functions.len();
        match self.function_signature(bytes) {
            Some(sig) => {
                let k = sig.index;
                proof {
                    lemma_first_index(function_names(before.functions), name.spec_bytes());
                    assert(function_names(before.functions).len() == count);
                }
                let entry = FunctionEntry {
                    name: vstd::slice::slice_to_vec(bytes),
                    arity,
                    pure,
                    value,
                };
                self.functions.set(k, entry);
                assert(self@.functions =~= before.functions.update(
                    k as int,
                    (name.spec_bytes(), arity, pure),
                ));
                assert(self@.variables =~= before.variables);
                assert(self.function_values() =~= values.update(k as int, value));
                assert(self.variable_values() =~= others);
                k
            },
            None => {
                let k = self.functions.len();
                let entry = FunctionEntry {
                    name: vstd::slice::slice_to_vec(bytes),
                    arity,
                    pure,
                    value,
                };
                self.functions.push(entry);
                assert(self@.functions =~= before.functions.push((name.spec_bytes(), arity, pure)));
                assert(self@.variables =~= before.variables);
                assert(self.function_values() =~= values.push(value));
                assert(self.variable_values() =~= others);
                k
            },
        }
    }
}

} // verus!
