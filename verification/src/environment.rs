//! The environment: the registry of the variables that expressions, constraints and
//! models refer to.
use vstd::prelude::*;
use vstd::string::*;

use crate::errors::{VariableCreationErr, VariableNotExistingErr};
use crate::types::Vtype;

verus! {

/// The index of a variable within its environment.
pub type VarIndex = u32;

/// The identity of an environment.
pub type EnvId = u64;

/// The lookup table from variable names to variable indices.
#[verifier::external_body]
pub struct NameLookup {
    map: hashbrown::HashMap<String, VarIndex>,
}

/// What the lookup table maps: each name to its variable index.
pub uninterp spec fn name_lookup_contents(m: NameLookup) -> Map<Seq<char>, VarIndex>;

impl NameLookup {
    pub open spec fn view(&self) -> Map<Seq<char>, VarIndex> {
        name_lookup_contents(*self)
    }

    /// `hashbrown::HashMap::new`: a map with no entry.
    #[verifier::external_body]
    pub fn new() -> (r: NameLookup)
        ensures
            name_lookup_contents(r) =~= Map::empty(),
    {
        NameLookup { map: hashbrown::HashMap::new() }
    }

    /// `hashbrown::HashMap::insert`: afterwards `name` maps to `index`, every other
    /// name as before.
    #[verifier::external_body]
    pub fn insert(&mut self, name: String, index: VarIndex)
        ensures
            name_lookup_contents(*final(self)) == name_lookup_contents(*old(self)).insert(name@, index),
    {
        self.map.insert(name, index);
    }

    /// `hashbrown::HashMap::get`: the index that `name` maps to, if any.
    #[verifier::external_body]
    pub fn get(&self, name: &str) -> (r: Option<VarIndex>)
        ensures
            r == (if name_lookup_contents(*self).contains_key(name@) {
                Some(name_lookup_contents(*self)[name@])
            } else {
                None::<VarIndex>
            }),
    {
        self.map.get(name).copied()
    }

    /// `hashbrown::HashMap::clone`: a map with the same entries.
    #[verifier::external_body]
    pub fn copy(&self) -> (r: NameLookup)
        ensures
            name_lookup_contents(r) == name_lookup_contents(*self),
    {
        NameLookup { map: self.map.clone() }
    }

    /// `hashbrown::HashMap::contains_key`: whether `name` has an entry.
    #[verifier::external_body]
    pub fn contains_key(&self, name: &str) -> (r: bool)
        ensures
            r == name_lookup_contents(*self).contains_key(name@),
    {
        self.map.contains_key(name)
    }
}

/// A variable of an environment.
#[derive(Debug)]
pub struct Variable {
    pub name: String,
    pub vtype: Vtype,
}

/// A reference to a variable: its index and the environment it belongs to.
#[derive(Debug, Clone, Copy, PartialEq, Eq, Structural)]
pub struct VarRef {
    pub id: VarIndex,
    pub env_id: EnvId,
}

impl VarRef {
    pub fn new(id: VarIndex, env_id: EnvId) -> (r: Self)
        ensures
            r.id == id,
            r.env_id == env_id,
    {
        VarRef { id, env_id }
    }

    /// The name of the variable in `env`.
    pub fn name(&self, env: &Environment) -> (r: String)
        requires
            (self.id as nat) < env.len(),
        ensures
            r@ == env.names()[self.id as int],
    {
        env.get_var(self.id).name.clone()
    }
}

/// The registry of variables.
pub struct Environment {
    pub id: EnvId,
    pub variables: Vec<Variable>,
    pub variables_lookup: NameLookup,
    pub varcount: VarIndex,
}

/// An ASCII letter.
pub open spec fn is_ascii_alphabetic(c: char) -> bool {
    ('a' <= c && c <= 'z') || ('A' <= c && c <= 'Z')
}

/// An ASCII letter or digit.
pub open spec fn is_ascii_alphanumeric(c: char) -> bool {
    is_ascii_alphabetic(c) || ('0' <= c && c <= '9')
}

/// A character allowed in a variable name.
pub open spec fn is_name_char(c: char) -> bool {
    is_ascii_alphanumeric(c) || c == '_' || c == ','
}

/// The message for a name that does not start with a letter.
pub open spec fn start_message() -> Seq<char> {
    "Variable names must start with an alphabetic character."@
}

/// The message for a name with a character that is not allowed.
pub open spec fn chars_message() -> Seq<char> {
    "Variable names must only contain alphanumeric characters or '_' or ','."@
}

/// Variable names start with an ASCII letter and hold only ASCII letters, digits,
/// `_` and `,`.
pub open spec fn is_valid_var_name(name: Seq<char>) -> bool {
    &&& name.len() > 0
    &&& is_ascii_alphabetic(name[0])
    &&& forall|i: int| 0 <= i < name.len() ==> is_name_char(#[trigger] name[i])
}

fn char_is_ascii_alphabetic(c: char) -> (r: bool)
    ensures
        r == is_ascii_alphabetic(c),
        r <==> ('a' <= c <= 'z') || ('A' <= c <= 'Z'),
{
    ('a' <= c && c <= 'z') || ('A' <= c && c <= 'Z')
}

fn char_is_name_char(c: char) -> (r: bool)
    ensures
        r == is_name_char(c),
{
    char_is_ascii_alphabetic(c) || ('0' <= c && c <= '9') || c == '_' || c == ','
}

/// Checks that `name` is a legal variable name.
pub fn ensure_name_valid(name: &str) -> (r: Result<(), VariableCreationErr>)
    ensures
        r is Ok <==> is_valid_var_name(name@),
        r matches Err(e) ==> (e matches VariableCreationErr::VarName(m) && (if name@.len() > 0
            && is_ascii_alphabetic(name@[0]) {
            m@ == chars_message()
        } else {
            m@ == start_message()
        })),
{
    let n = name.unicode_len();
    if n == 0 || !char_is_ascii_alphabetic(name.get_char(0)) {
        return Err(
            VariableCreationErr::VarName(
                String::from_str("Variable names must start with an alphabetic character."),
            ),
        );
    }
    let mut i: usize = 0;
    while i < n
        invariant
            n == name@.len(),
            n > 0,
            is_ascii_alphabetic(name@[0]),
            0 <= i <= n,
            forall|k: int| 0 <= k < i ==> is_name_char(#[trigger] name@[k]),
        decreases n - i,
    {
        if !char_is_name_char(name.get_char(i)) {
            return Err(
                VariableCreationErr::VarName(
                    String::from_str(
                        "Variable names must only contain alphanumeric characters or '_' or ','.",
                    ),
                ),
            );
        }
        i = i + 1;
    }
    Ok(())
}

impl Environment {
    /// The type of each variable, by index.
    pub open spec fn vtypes(&self) -> Seq<Vtype> {
        self.variables@.map_values(|v: Variable| v.vtype)
    }

    /// The name of each variable, by index.
    pub open spec fn names(&self) -> Seq<Seq<char>> {
        self.variables@.map_values(|v: Variable| v.name@)
    }

    /// The number of variables.
    pub open spec fn len(&self) -> nat {
        self.variables@.len()
    }

    /// The environment's invariant: the count matches, names are legal and distinct,
    /// and the lookup table maps exactly each name to its index.
    pub open spec fn wf(&self) -> bool {
        &&& self.varcount as nat == self.variables@.len()
        &&& forall|i: int| 0 <= i < self.len() ==> is_valid_var_name(#[trigger] self.names()[i])
        &&& forall|i: int, j: int|
            0 <= i < j < self.len() ==> self.names()[i] != self.names()[j]
        &&& forall|i: int|
            0 <= i < self.len() ==> #[trigger] self.variables_lookup.view().contains_key(
                self.names()[i],
            ) && self.variables_lookup.view()[self.names()[i]] == i
        &&& forall|n: Seq<char>|
            #[trigger] self.variables_lookup.view().contains_key(n) ==> {
                let i = self.variables_lookup.view()[n] as int;
                0 <= i < self.len() && self.names()[i] == n
            }
    }

    /// An empty environment with the given identity.
    pub fn new_for(id: EnvId) -> (r: Self)
        ensures
            r.wf(),
            r.id == id,
            r.len() == 0,
    {
        Environment { id, variables: Vec::new(), variables_lookup: NameLookup::new(), varcount: 0 }
    }

    /// Adds a variable of the given name and type (binary by default) and returns a
    /// reference to it.
    pub fn add_variable(&mut self, name: &str, vtype: Option<Vtype>) -> (r: Result<
        VarRef,
        VariableCreationErr,
    >)
        requires
            old(self).wf(),
            old(self).len() < VarIndex::MAX,
        ensures
            final(self).wf(),
            final(self).id == old(self).id,
            old(self).names().contains(name@) ==> (r matches Err(
                VariableCreationErr::VariableExists(m),
            ) && m@ == name@),
            !old(self).names().contains(name@) && !is_valid_var_name(name@) ==> (r matches Err(
                VariableCreationErr::VarName(m),
            ) && (if name@.len() > 0 && is_ascii_alphabetic(name@[0]) {
                m@ == chars_message()
            } else {
                m@ == start_message()
            })),
            r is Ok <==> !old(self).names().contains(name@) && is_valid_var_name(name@),
            r matches Ok(v) ==> {
                &&& v.id == old(self).len()
                &&& v.env_id == old(self).id
                &&& final(self).names() == old(self).names().push(name@)
                &&& final(self).vtypes() == old(self).vtypes().push(
                    match vtype {
                        Some(t) => t,
                        None => Vtype::Binary,
                    },
                )
            },
            r is Err ==> final(self).names() == old(self).names() && final(self).vtypes()
                == old(self).vtypes(),
    {
        if self.variables_lookup.contains_key(name) {
            proof {
                let i = self.variables_lookup.view()[name@] as int;
                assert(self.names()[i] == name@);
            }
            return Err(VariableCreationErr::VariableExists(String::from_str(name)));
        }
        proof {
            if self.names().contains(name@) {
                let i = choose|i: int| 0 <= i < self.names().len() && self.names()[i] == name@;
                assert(self.variables_lookup.view().contains_key(self.names()[i]));
            }
        }
        match ensure_name_valid(name) {
            Ok(()) => {},
            Err(e) => {
                return Err(e);
            },
        }
        let t = match vtype {
            Some(t) => t,
            None => Vtype::Binary,
        };
        let id = self.varcount;
        let ghost old_names = self.names();
        let ghost old_vtypes = self.vtypes();
        let ghost old_lookup = self.variables_lookup.view();
        self.variables.push(Variable { name: String::from_str(name), vtype: t });
        self.variables_lookup.insert(String::from_str(name), id);
        self.varcount = self.varcount + 1;
        proof {
            assert(self.names() =~= old_names.push(name@));
            assert(self.vtypes() =~= old_vtypes.push(t));
            assert forall|n: Seq<char>| #[trigger]
                self.variables_lookup.view().contains_key(n) implies {
                let i = self.variables_lookup.view()[n] as int;
                0 <= i < self.len() && self.names()[i] == n
            } by {
                if n != name@ {
                    assert(old_lookup.contains_key(n));
                }
            }
            assert forall|i: int| 0 <= i < self.len() implies #[trigger]
                self.variables_lookup.view().contains_key(self.names()[i])
                && self.variables_lookup.view()[self.names()[i]] == i by {
                if i < old_names.len() {
                    assert(old_lookup.contains_key(old_names[i]));
                    assert(old_names[i] != name@);
                }
            }
            assert forall|i: int, j: int| 0 <= i < j < self.len() implies self.names()[i]
                != self.names()[j] by {
                if j == old_names.len() {
                    assert(old_lookup.contains_key(old_names[i]));
                }
            }
        }
        Ok(VarRef::new(id, self.id))
    }

    pub fn add_binary(&mut self, name: &str) -> (r: Result<VarRef, VariableCreationErr>)
        requires
            old(self).wf(),
            old(self).len() < VarIndex::MAX,
        ensures
            final(self).wf(),
            final(self).id == old(self).id,
            r is Ok <==> !old(self).names().contains(name@) && is_valid_var_name(name@),
            r matches Ok(v) ==> v.id == old(self).len() && v.env_id == old(self).id
                && final(self).names() == old(self).names().push(name@) && final(self).vtypes()
                == old(self).vtypes().push(Vtype::Binary),
            r is Err ==> final(self).names() == old(self).names() && final(self).vtypes()
                == old(self).vtypes(),
    {
        self.add_variable(name, Some(Vtype::Binary))
    }

    pub fn add_spin(&mut self, name: &str) -> (r: Result<VarRef, VariableCreationErr>)
        requires
            old(self).wf(),
            old(self).len() < VarIndex::MAX,
        ensures
            final(self).wf(),
            final(self).id == old(self).id,
            r is Ok <==> !old(self).names().contains(name@) && is_valid_var_name(name@),
            r matches Ok(v) ==> v.id == old(self).len() && v.env_id == old(self).id
                && final(self).names() == old(self).names().push(name@) && final(self).vtypes()
                == old(self).vtypes().push(Vtype::Spin),
            r is Err ==> final(self).names() == old(self).names() && final(self).vtypes()
                == old(self).vtypes(),
    {
        self.add_variable(name, Some(Vtype::Spin))
    }

    pub fn add_real(&mut self, name: &str) -> (r: Result<VarRef, VariableCreationErr>)
        requires
            old(self).wf(),
            old(self).len() < VarIndex::MAX,
        ensures
            final(self).wf(),
            final(self).id == old(self).id,
            r is Ok <==> !old(self).names().contains(name@) && is_valid_var_name(name@),
            r matches Ok(v) ==> v.id == old(self).len() && v.env_id == old(self).id
                && final(self).names() == old(self).names().push(name@) && final(self).vtypes()
                == old(self).vtypes().push(Vtype::Real),
            r is Err ==> final(self).names() == old(self).names() && final(self).vtypes()
                == old(self).vtypes(),
    {
        self.add_variable(name, Some(Vtype::Real))
    }

    pub fn add_integer(&mut self, name: &str) -> (r: Result<VarRef, VariableCreationErr>)
        requires
            old(self).wf(),
            old(self).len() < VarIndex::MAX,
        ensures
            final(self).wf(),
            final(self).id == old(self).id,
            r is Ok <==> !old(self).names().contains(name@) && is_valid_var_name(name@),
            r matches Ok(v) ==> v.id == old(self).len() && v.env_id == old(self).id
                && final(self).names() == old(self).names().push(name@) && final(self).vtypes()
                == old(self).vtypes().push(Vtype::Integer),
            r is Err ==> final(self).names() == old(self).names() && final(self).vtypes()
                == old(self).vtypes(),
    {
        self.add_variable(name, Some(Vtype::Integer))
    }

    /// The index of the variable of the given name.
    pub fn get(&self, name: &str) -> (r: Result<VarIndex, VariableNotExistingErr>)
        requires
            self.wf(),
        ensures
            r is Ok <==> self.names().contains(name@),
            r matches Ok(i) ==> i < self.len() && self.names()[i as int] == name@,
    {
        match self.variables_lookup.get(name) {
            Some(i) => {
                proof {
                    assert(self.variables_lookup.view().contains_key(name@));
                    assert(self.names()[i as int] == name@);
                }
                Ok(i)
            },
            None => {
                proof {
                    if self.names().contains(name@) {
                        let i = choose|i: int|
                            0 <= i < self.names().len() && self.names()[i] == name@;
                        assert(self.variables_lookup.view().contains_key(self.names()[i]));
                    }
                }
                Err(VariableNotExistingErr)
            },
        }
    }

    /// A reference to the variable of the given name.
    pub fn get_vref_by_name(&self, name: &str) -> (r: Result<VarRef, VariableNotExistingErr>)
        requires
            self.wf(),
        ensures
            r is Ok <==> self.names().contains(name@),
            r matches Ok(v) ==> v.id < self.len() && self.names()[v.id as int] == name@
                && v.env_id == self.id,
    {
        match self.get(name) {
            Ok(i) => Ok(VarRef::new(i, self.id)),
            Err(e) => Err(e),
        }
    }

    /// References to all variables, in the order they were added.
    pub fn get_vrefs_in_order(&self) -> (r: Vec<VarRef>)
        requires
            self.wf(),
        ensures
            r.len() == self.len(),
            forall|i: int| 0 <= i < r.len() ==> #[trigger] r[i].id == i && r[i].env_id == self.id,
    {
        let mut r: Vec<VarRef> = Vec::new();
        let n = self.varcount;
        let mut i: VarIndex = 0;
        while i < n
            invariant
                n as nat == self.len(),
                0 <= i <= n,
                r.len() == i,
                forall|k: int| 0 <= k < r.len() ==> #[trigger] r[k].id == k && r[k].env_id
                    == self.id,
            decreases n - i,
        {
            r.push(VarRef::new(i, self.id));
            i = i + 1;
        }
        r
    }

    /// The variable at index `id`.
    pub fn get_var(&self, id: VarIndex) -> (r: &Variable)
        requires
            (id as nat) < self.len(),
        ensures
            r.name@ == self.names()[id as int],
            r.vtype == self.vtypes()[id as int],
    {
        &self.variables[id as usize]
    }

    /// Whether the two environments hold the same variables, with the same names and
    /// types in the same order; their identities take no part in the comparison. (The
    /// lookup tables of well-formed environments with the same names are the same.)
    pub fn is_equal_contents(&self, other: &Environment) -> (r: bool)
        requires
            self.wf(),
            other.wf(),
        ensures
            r == (self.names() == other.names() && self.vtypes() == other.vtypes()),
    {
        if self.varcount != other.varcount {
            proof {
                assert(self.names().len() != other.names().len());
            }
            return false;
        }
        let n = self.variables.len();
        let mut i: usize = 0;
        while i < n
            invariant
                0 <= i <= n,
                n == self.variables@.len(),
                n == other.variables@.len(),
                forall|k: int| 0 <= k < i ==> self.names()[k] == other.names()[k] && self.vtypes()[k]
                    == other.vtypes()[k],
            decreases n - i,
        {
            let a = &self.variables[i];
            let b = &other.variables[i];
            if a.name != b.name || a.vtype != b.vtype {
                proof {
                    assert(self.names()[i as int] != other.names()[i as int] || self.vtypes()[i as int]
                        != other.vtypes()[i as int]);
                }
                return false;
            }
            i = i + 1;
        }
        proof {
            assert(self.names() =~= other.names());
            assert(self.vtypes() =~= other.vtypes());
        }
        true
    }

    /// The type of variable `id`.
    pub fn get_vtype(&self, id: VarIndex) -> (r: Vtype)
        requires
            (id as nat) < self.len(),
        ensures
            r == self.vtypes()[id as int],
    {
        self.variables[id as usize].vtype
    }

    /// A copy of the environment under the identity `id`: the same variables, in the
    /// same order, with the same names and types.
    pub fn deep_clone(&self, id: EnvId) -> (r: Environment)
        requires
            self.wf(),
        ensures
            r.wf(),
            r.id == id,
            r.names() == self.names(),
            r.vtypes() == self.vtypes(),
    {
        let mut variables: Vec<Variable> = Vec::new();
        let mut i: usize = 0;
        while i < self.variables.len()
            invariant
                0 <= i <= self.variables.len(),
                variables@.len() == i,
                forall|k: int| 0 <= k < i ==> #[trigger] variables@[k].name@ == self.variables@[k].name@
                    && variables@[k].vtype == self.variables@[k].vtype,
            decreases self.variables.len() - i,
        {
            let ghost before = variables@;
            let name = self.variables[i].name.clone();
            let vtype = self.variables[i].vtype;
            proof {
                assert(name@ == self.variables@[i as int].name@);
                assert(vtype == self.variables@[i as int].vtype);
            }
            let ghost nv = Variable { name, vtype };
            variables.push(Variable { name, vtype });
            proof {
                assert(variables@[i as int] == nv);
                assert forall|k: int| 0 <= k < i + 1 implies #[trigger] variables@[k].name@
                    == self.variables@[k].name@ by {
                    if k < i {
                        assert(variables@[k] == before[k]);
                    }
                }
                assert forall|k: int| 0 <= k < i + 1 implies #[trigger] variables@[k].vtype
                    == self.variables@[k].vtype by {
                    if k < i {
                        assert(variables@[k] == before[k]);
                        assert(before[k].name@ == self.variables@[k].name@);
                    }
                }
            }
            i = i + 1;
        }
        let r = Environment { id, variables, variables_lookup: self.variables_lookup.copy(), varcount: self.varcount };
        proof {
            assert(r.names() =~= self.names());
            assert forall|k: int| 0 <= k < r.vtypes().len() implies r.vtypes()[k] == self.vtypes()[k] by {
                assert(r.variables@[k].name@ == self.variables@[k].name@);
                assert(r.variables@[k].vtype == self.variables@[k].vtype);
            }
            assert(r.vtypes() =~= self.vtypes());
            assert(r.variables_lookup.view() == self.variables_lookup.view());
        }
        r
    }

    /// The number of variables.
    pub fn num_variables(&self) -> (r: usize)
        ensures
            r == self.len(),
    {
        self.variables.len()
    }
}

} // verus!
