//! Collections of named constraints, in the order in which they were added.
use vstd::prelude::*;
use vstd::string::*;

use indexmap::IndexMap;

use crate::constraint::{placeholder_name, Constraint};
use crate::environment::{Environment, VarIndex, VarRef};
use crate::removal::renumbered;
use crate::errors::{
    DifferentEnvsErr, DuplicateConstraintNameErr, GetConstraintErr, IndexOutOfBoundsErr,
};
use crate::expression::{Bias, Expression};
use crate::text::{decimal, to_decimal};
use crate::types::{Comparator, Vtype};

verus! {

/// The insertion-ordered map of the `indexmap` crate.
#[verifier::external_type_specification]
#[verifier::external_body]
#[verifier::reject_recursive_types(K)]
#[verifier::reject_recursive_types(V)]
#[verifier::reject_recursive_types(S)]
pub struct ExIndexMap<K, V, S>(IndexMap<K, V, S>);

/// The entries of a map of constraints: each name with its constraint, in the order
/// of the map.
pub uninterp spec fn table_entries(m: IndexMap<String, Constraint>) -> Seq<(Seq<char>, Constraint)>;

/// The position of the entry named `name`, if there is one.
pub open spec fn find_name(es: Seq<(Seq<char>, Constraint)>, name: Seq<char>) -> Option<int> {
    if exists|i: int| 0 <= i < es.len() && (#[trigger] es[i]).0 == name {
        Some(choose|i: int| 0 <= i < es.len() && (#[trigger] es[i]).0 == name)
    } else {
        None
    }
}

/// The entries after inserting `c` under `name`: an entry of that name keeps its place
/// and takes the new constraint; otherwise the new entry comes last.
pub open spec fn entries_insert(es: Seq<(Seq<char>, Constraint)>, name: Seq<char>, c: Constraint) -> Seq<
    (Seq<char>, Constraint),
> {
    match find_name(es, name) {
        Some(i) => es.update(i, (es[i].0, c)),
        None => es.push((name, c)),
    }
}

/// The name that the constraint at position `idx` of a list is inserted under: its own,
/// or `c` and the position where it has the placeholder name.
pub open spec fn list_name(c: Constraint, idx: int) -> Seq<char> {
    if c.name@ == placeholder_name() {
        "c"@ + decimal(idx as nat)
    } else {
        c.name@
    }
}

/// `c` is `d` under the name `name`.
pub open spec fn renamed(c: Constraint, d: Constraint, name: Seq<char>) -> bool {
    &&& c.lhs == d.lhs
    &&& c.rhs == d.rhs
    &&& c.comparator == d.comparator
    &&& c.name@ == name
}

/// The entries that inserting the constraints `rs` one after another, each under its
/// name, gives.
pub open spec fn entries_from_list(rs: Seq<Constraint>) -> Seq<(Seq<char>, Constraint)>
    decreases rs.len(),
{
    if rs.len() == 0 {
        Seq::empty()
    } else {
        entries_insert(entries_from_list(rs.drop_last()), rs.last().name@, rs.last())
    }
}

/// No two entries have the same name.
pub open spec fn distinct_names(es: Seq<(Seq<char>, Constraint)>) -> bool {
    forall|a: int, b: int| 0 <= a < b < es.len() ==> es[a].0 != es[b].0
}

/// `IndexMap::new`: a map without entries.
#[verifier::external_body]
fn table_new() -> (r: IndexMap<String, Constraint>)
    ensures
        table_entries(r) == Seq::<(Seq<char>, Constraint)>::empty(),
{
    IndexMap::new()
}

/// `IndexMap::len`: the number of entries.
#[verifier::external_body]
fn table_len(m: &IndexMap<String, Constraint>) -> (r: usize)
    ensures
        r == table_entries(*m).len(),
{
    m.len()
}

/// `IndexMap::get_index`: the entry at position `i`, if there is one.
#[verifier::external_body]
fn table_get_index(m: &IndexMap<String, Constraint>, i: usize) -> (r: Option<(&String, &Constraint)>)
    ensures
        r is Some <==> (i as int) < table_entries(*m).len(),
        r matches Some((k, c)) ==> k@ == table_entries(*m)[i as int].0 && *c == table_entries(
            *m,
        )[i as int].1,
{
    m.get_index(i)
}

/// `IndexMap::get_index_of`: the position of the entry named `name`, if there is one.
#[verifier::external_body]
fn table_get_index_of(m: &IndexMap<String, Constraint>, name: &str) -> (r: Option<usize>)
    ensures
        r matches Some(i) ==> (i as int) < table_entries(*m).len() && table_entries(*m)[i as int].0
            == name@,
        r is None ==> forall|i: int|
            0 <= i < table_entries(*m).len() ==> (#[trigger] table_entries(*m)[i]).0 != name@,
{
    m.get_index_of(name)
}

/// `IndexMap::insert`: an entry named `name` keeps its place and takes `c`, and its
/// former constraint is returned; otherwise `(name, c)` is added last.
#[verifier::external_body]
fn table_insert(m: &mut IndexMap<String, Constraint>, name: String, c: Constraint) -> (r: Option<
    Constraint,
>)
    ensures
        table_entries(*final(m)) == entries_insert(table_entries(*old(m)), name@, c),
        r == match find_name(table_entries(*old(m)), name@) {
            Some(i) => Some(table_entries(*old(m))[i].1),
            None => None::<Constraint>,
        },
{
    m.insert(name, c)
}

/// `IndexMap::insert` of a name that the map does not hold: `(name, c)` is added last.
pub(crate) fn table_insert_fresh(m: &mut IndexMap<String, Constraint>, name: String, c: Constraint) -> (r:
    Option<Constraint>)
    requires
        find_name(table_entries(*old(m)), name@) is None,
    ensures
        table_entries(*final(m)) == table_entries(*old(m)).push((name@, c)),
        r is None,
{
    table_insert(m, name, c)
}

/// `IndexMap::shift_remove_index`: removes and returns the entry at position `i`, the
/// entries after it moving up by one; nothing happens where there is no such entry.
#[verifier::external_body]
fn table_shift_remove_index(m: &mut IndexMap<String, Constraint>, i: usize) -> (r: Option<
    (String, Constraint),
>)
    ensures
        (i as int) < table_entries(*old(m)).len() ==> {
            &&& r matches Some((k, c)) && k@ == table_entries(*old(m))[i as int].0 && c
                == table_entries(*old(m))[i as int].1
            &&& table_entries(*final(m)) == table_entries(*old(m)).remove(i as int)
        },
        (i as int) >= table_entries(*old(m)).len() ==> r is None && table_entries(*final(m))
            == table_entries(*old(m)),
{
    m.shift_remove_index(i)
}

/// How a constraint of a collection is addressed: by position or by name.
pub enum ConstraintKey {
    Int(usize),
    Str(String),
}

impl ConstraintKey {
    /// The position or the name, as text.
    pub fn describe(&self) -> (r: String)
        ensures
            r@ == match self {
                ConstraintKey::Int(i) => decimal(*i as nat),
                ConstraintKey::Str(s) => s@,
            },
    {
        match self {
            ConstraintKey::Int(i) => to_decimal(*i as u64),
            ConstraintKey::Str(s) => s.clone(),
        }
    }
}

/// Named constraints in the order in which they were added.
pub struct ConstraintCollection {
    pub data: IndexMap<String, Constraint>,
}

impl ConstraintCollection {
    /// The names and constraints, in order.
    pub open spec fn entries(&self) -> Seq<(Seq<char>, Constraint)> {
        table_entries(self.data)
    }

    /// No two constraints have the same name.
    pub open spec fn wf(&self) -> bool {
        distinct_names(self.entries())
    }

    /// An empty collection.
    pub fn default() -> (r: Self)
        ensures
            r.wf(),
            r.entries() == Seq::<(Seq<char>, Constraint)>::empty(),
    {
        ConstraintCollection { data: table_new() }
    }

    /// The number of constraints.
    pub fn len(&self) -> (r: usize)
        ensures
            r == self.entries().len(),
    {
        table_len(&self.data)
    }

    /// Whether the collection holds no constraint.
    pub fn is_empty(&self) -> (r: bool)
        ensures
            r == (self.entries().len() == 0),
    {
        self.len() == 0
    }

    /// The name and constraint at position `i`.
    pub fn get_index(&self, i: usize) -> (r: (&String, &Constraint))
        requires
            (i as int) < self.entries().len(),
        ensures
            r.0@ == self.entries()[i as int].0,
            *r.1 == self.entries()[i as int].1,
    {
        match table_get_index(&self.data, i) {
            Some(e) => e,
            None => vstd::pervasive::unreached(),
        }
    }

    /// The constraint addressed by `key`; an error when there is no constraint at that
    /// position or of that name.
    pub fn get_constraint(&self, key: ConstraintKey) -> (r: Result<&Constraint, GetConstraintErr>)
        requires
            self.wf(),
        ensures
            match key {
                ConstraintKey::Int(i) => if (i as int) < self.entries().len() {
                    r matches Ok(c) && *c == self.entries()[i as int].1
                } else {
                    r matches Err(GetConstraintErr::IndexOutOfBoundsErr(e)) && e.index == i && e.len
                        == self.entries().len()
                },
                ConstraintKey::Str(name) => match find_name(self.entries(), name@) {
                    Some(j) => r matches Ok(c) && *c == self.entries()[j].1,
                    None => r matches Err(GetConstraintErr::NoConstraintForKeyErr(m)) && m@ == name@,
                },
            },
    {
        match key {
            ConstraintKey::Int(i) => {
                match table_get_index(&self.data, i) {
                    Some((_, c)) => Ok(c),
                    None => Err(
                        GetConstraintErr::IndexOutOfBoundsErr(IndexOutOfBoundsErr::new(i, self.len())),
                    ),
                }
            },
            ConstraintKey::Str(name) => {
                match table_get_index_of(&self.data, name.as_str()) {
                    Some(i) => {
                        proof {
                            self.lemma_find_name(name@, i as int);
                        }
                        Ok(self.get_index(i).1)
                    },
                    None => Err(GetConstraintErr::NoConstraintForKeyErr(name)),
                }
            },
        }
    }

    /// With distinct names, the entry named `name` is the one at `i`.
    proof fn lemma_find_name(&self, name: Seq<char>, i: int)
        requires
            self.wf(),
            0 <= i < self.entries().len(),
            self.entries()[i].0 == name,
        ensures
            find_name(self.entries(), name) == Some(i),
    {
        let es = self.entries();
        assert(es[i].0 == name);
        let j = choose|j: int| 0 <= j < es.len() && (#[trigger] es[j]).0 == name;
        if j != i {
            if j < i {
                assert(es[j].0 != es[i].0);
            } else {
                assert(es[i].0 != es[j].0);
            }
        }
    }

    /// Replaces the constraint addressed by `key`, which keeps its name and place; an
    /// error, with the collection unchanged, when there is no constraint at that
    /// position or of that name.
    pub fn set_constraint(&mut self, key: ConstraintKey, constr: Constraint) -> (r: Result<
        (),
        GetConstraintErr,
    >)
        requires
            old(self).wf(),
        ensures
            final(self).wf(),
            match key {
                ConstraintKey::Int(i) => if (i as int) < old(self).entries().len() {
                    r is Ok && final(self).entries() == old(self).entries().update(
                        i as int,
                        (old(self).entries()[i as int].0, constr),
                    )
                } else {
                    r matches Err(GetConstraintErr::IndexOutOfBoundsErr(e)) && e.index == i && e.len
                        == old(self).entries().len() && final(self).entries() == old(self).entries()
                },
                ConstraintKey::Str(name) => match find_name(old(self).entries(), name@) {
                    Some(j) => r is Ok && final(self).entries() == old(self).entries().update(
                        j,
                        (name@, constr),
                    ),
                    None => r matches Err(GetConstraintErr::NoConstraintForKeyErr(m)) && m@ == name@
                        && final(self).entries() == old(self).entries(),
                },
            },
    {
        let ghost es = self.entries();
        match key {
            ConstraintKey::Int(i) => {
                if i < self.len() {
                    let name = self.get_index(i).0.clone();
                    proof {
                        self.lemma_find_name(name@, i as int);
                    }
                    let _ = table_insert(&mut self.data, name, constr);
                    proof {
                        self.lemma_update_keeps_names(es, i as int);
                    }
                    Ok(())
                } else {
                    Err(GetConstraintErr::IndexOutOfBoundsErr(IndexOutOfBoundsErr::new(i, self.len())))
                }
            },
            ConstraintKey::Str(name) => {
                match table_get_index_of(&self.data, name.as_str()) {
                    Some(i) => {
                        proof {
                            self.lemma_find_name(name@, i as int);
                        }
                        let _ = table_insert(&mut self.data, name, constr);
                        proof {
                            self.lemma_update_keeps_names(es, i as int);
                        }
                        Ok(())
                    },
                    None => Err(GetConstraintErr::NoConstraintForKeyErr(name)),
                }
            },
        }
    }

    /// Replacing the constraint of an entry keeps the names distinct.
    proof fn lemma_update_keeps_names(&self, es: Seq<(Seq<char>, Constraint)>, i: int)
        requires
            distinct_names(es),
            0 <= i < es.len(),
            self.entries().len() == es.len(),
            forall|j: int| 0 <= j < es.len() ==> (#[trigger] self.entries()[j]).0 == es[j].0,
        ensures
            self.wf(),
    {
        assert forall|a: int, b: int| 0 <= a < b < self.entries().len() implies self.entries()[a].0
            != self.entries()[b].0 by {
            assert(es[a].0 != es[b].0);
        }
    }

    /// Removes the constraint addressed by `key`; the others keep their order. Nothing
    /// happens when there is no constraint at that position or of that name.
    pub fn remove_constraint(&mut self, key: ConstraintKey)
        requires
            old(self).wf(),
        ensures
            final(self).wf(),
            match key {
                ConstraintKey::Int(i) => final(self).entries() == if (i as int) < old(self).entries().len() {
                    old(self).entries().remove(i as int)
                } else {
                    old(self).entries()
                },
                ConstraintKey::Str(name) => final(self).entries() == match find_name(old(self).entries(), name@) {
                    Some(j) => old(self).entries().remove(j),
                    None => old(self).entries(),
                },
            },
    {
        let ghost es = self.entries();
        match key {
            ConstraintKey::Int(i) => {
                let _ = table_shift_remove_index(&mut self.data, i);
                proof {
                    if (i as int) < es.len() {
                        lemma_remove_names(es, i as int);
                    }
                }
            },
            ConstraintKey::Str(name) => {
                match table_get_index_of(&self.data, name.as_str()) {
                    Some(i) => {
                        proof {
                            self.lemma_find_name(name@, i as int);
                        }
                        let _ = table_shift_remove_index(&mut self.data, i);
                        proof {
                            lemma_remove_names(es, i as int);
                        }
                    },
                    None => {},
                }
            },
        }
    }

    /// Adds `rhs` as the last constraint: under the name `c` followed by the number of
    /// constraints where it has the placeholder name, else under its own name; an
    /// error, with the collection unchanged, when a constraint of that name exists
    /// already. On success the collection grows by one.
    pub fn add_assign(&mut self, rhs: Constraint) -> (r: Result<(), DuplicateConstraintNameErr>)
        requires
            old(self).wf(),
        ensures
            final(self).wf(),
            rhs.name@ == placeholder_name() ==> {
                let n = "c"@ + decimal(old(self).entries().len());
                match find_name(old(self).entries(), n) {
                    Some(_) => r matches Err(e) && e.0@ == n && final(self).entries() == old(
                        self,
                    ).entries(),
                    None => r is Ok && exists|c: Constraint|
                        c.name@ == n && c.lhs == rhs.lhs && c.rhs == rhs.rhs && c.comparator
                            == rhs.comparator && final(self).entries() == old(self).entries().push(
                            (n, c),
                        ),
                }
            },
            rhs.name@ != placeholder_name() ==> match find_name(old(self).entries(), rhs.name@) {
                Some(_) => r matches Err(e) && e.0@ == rhs.name@ && final(self).entries() == old(
                    self,
                ).entries(),
                None => r is Ok && final(self).entries() == old(self).entries().push(
                    (rhs.name@, rhs),
                ),
            },
    {
        let ghost es = self.entries();
        if rhs.has_placeholder_name() {
            let mut c = rhs;
            let n = self.len();
            c.set_name_for_idx(n);
            match table_get_index_of(&self.data, c.name.as_str()) {
                Some(i) => {
                    proof {
                        self.lemma_find_name(c.name@, i as int);
                    }
                    Err(DuplicateConstraintNameErr(c.name))
                },
                None => {
                    proof {
                        assert(find_name(es, c.name@) is None);
                    }
                    let name = c.name.clone();
                    let ghost cg = c;
                    let _ = table_insert(&mut self.data, name, c);
                    proof {
                        lemma_insert_names(es, name@, cg);
                    }
                    Ok(())
                },
            }
        } else {
            match table_get_index_of(&self.data, rhs.name.as_str()) {
                Some(i) => {
                    proof {
                        self.lemma_find_name(rhs.name@, i as int);
                    }
                    Err(DuplicateConstraintNameErr(rhs.name))
                },
                None => {
                    let name = rhs.name.clone();
                    let ghost cg = rhs;
                    let _ = table_insert(&mut self.data, name, rhs);
                    proof {
                        lemma_insert_names(es, name@, cg);
                    }
                    Ok(())
                },
            }
        }
    }

    /// The collection of the constraints of `constraints`, inserted one after another
    /// in their order: a constraint with the placeholder name is named `c` and its
    /// position in the list first, and a constraint under a name that an earlier one
    /// already has replaces that one in its place.
    pub fn new_from_vec(constraints: Vec<Constraint>) -> (r: ConstraintCollection)
        ensures
            r.wf(),
            exists|rs: Seq<Constraint>|
                #![trigger entries_from_list(rs)]
                rs.len() == constraints@.len() && (forall|i: int|
                    0 <= i < rs.len() ==> renamed(
                        #[trigger] rs[i],
                        constraints@[i],
                        list_name(constraints@[i], i),
                    )) && r.entries() == entries_from_list(rs),
    {
        let ghost cs = constraints@;
        let n = constraints.len();
        let mut slf = ConstraintCollection::default();
        // Take the constraints from the back, to hand them out front first.
        let mut rest = constraints;
        let mut reversed: Vec<Constraint> = Vec::new();
        while rest.len() > 0
            invariant
                n == cs.len(),
                rest.len() + reversed.len() == n,
                rest@ == cs.take(rest.len() as int),
                forall|k: int| 0 <= k < reversed.len() ==> #[trigger] reversed@[k] == cs[n - 1 - k],
            decreases rest.len(),
        {
            let ghost before = rest@;
            let c = rest.pop().unwrap();
            proof {
                assert(c == cs[rest.len() as int]);
                assert(rest@ =~= cs.take(rest.len() as int));
            }
            reversed.push(c);
        }
        let mut idx: usize = 0;
        let ghost mut rs: Seq<Constraint> = Seq::empty();
        while reversed.len() > 0
            invariant
                n == cs.len(),
                idx + reversed.len() == n,
                forall|k: int| 0 <= k < reversed.len() ==> #[trigger] reversed@[k] == cs[n - 1 - k],
                rs.len() == idx,
                forall|i: int| 0 <= i < rs.len() ==> renamed(#[trigger] rs[i], cs[i], list_name(cs[i], i)),
                slf.entries() == entries_from_list(rs),
                slf.wf(),
            decreases reversed.len(),
        {
            let ghost es = slf.entries();
            let mut c = reversed.pop().unwrap();
            proof {
                assert(c == cs[idx as int]);
            }
            if c.has_placeholder_name() {
                c.set_name_for_idx(idx);
            }
            let name = c.name.clone();
            let ghost cg = c;
            let _ = table_insert(&mut slf.data, name, c);
            proof {
                lemma_insert_names(es, name@, cg);
                let old_rs = rs;
                rs = rs.push(cg);
                assert(rs.drop_last() =~= old_rs);
                assert forall|i: int| 0 <= i < rs.len() implies renamed(
                    #[trigger] rs[i],
                    cs[i],
                    list_name(cs[i], i),
                ) by {
                    if i < old_rs.len() {
                        assert(rs[i] == old_rs[i]);
                    }
                }
            }
            idx = idx + 1;
        }
        proof {
            assert(rs.len() == cs.len());
        }
        slf
    }

    /// A copy of the collection: the same names, in the same order, with copies of the
    /// constraints.
    pub fn new_from(other: &ConstraintCollection) -> (r: ConstraintCollection)
        requires
            other.wf(),
        ensures
            r.wf(),
            r.entries().len() == other.entries().len(),
            forall|i: int| 0 <= i < other.entries().len() ==> {
                let (n, c) = #[trigger] r.entries()[i];
                let (n0, c0) = other.entries()[i];
                &&& n == n0
                &&& c.same_content(&c0)
            },
    {
        let ghost es = other.entries();
        let mut out = ConstraintCollection::default();
        let n = other.len();
        let mut i: usize = 0;
        while i < n
            invariant
                0 <= i <= n,
                n == es.len(),
                es == other.entries(),
                distinct_names(es),
                out.wf(),
                out.entries().len() == i,
                forall|j: int| 0 <= j < i ==> {
                    let (nm, c) = #[trigger] out.entries()[j];
                    let (n0, c0) = es[j];
                    &&& nm == n0
                    &&& c.same_content(&c0)
                },
            decreases n - i,
        {
            let ghost before = out.entries();
            let (name, c) = other.get_index(i);
            let copy = c.copy();
            let key = name.clone();
            proof {
                assert(find_name(before, key@) is None) by {
                    if exists|k: int| 0 <= k < before.len() && (#[trigger] before[k]).0 == key@ {
                        let k = choose|k: int| 0 <= k < before.len() && (#[trigger] before[k]).0 == key@;
                        assert(before[k].0 == es[k].0);
                        assert(es[k].0 != es[i as int].0);
                    }
                }
            }
            let _ = table_insert_fresh(&mut out.data, key, copy);
            proof {
                assert forall|a: int, b: int| 0 <= a < b < out.entries().len() implies out.entries()[a].0
                    != out.entries()[b].0 by {
                    if b == before.len() {
                        assert(out.entries()[a] == before[a]);
                        assert(before[a].0 == es[a].0);
                        assert(es[a].0 != es[i as int].0);
                    } else {
                        assert(out.entries()[a] == before[a] && out.entries()[b] == before[b]);
                    }
                }
                assert forall|j: int| 0 <= j < i + 1 implies {
                    let (nm, c) = #[trigger] out.entries()[j];
                    let (n0, c0) = es[j];
                    &&& nm == n0
                    &&& c.same_content(&c0)
                } by {
                    if j < i {
                        assert(out.entries()[j] == before[j]);
                    }
                }
            }
            i = i + 1;
        }
        out
    }

    /// A copy of the collection whose left-hand sides belong to the environment of
    /// identity `env_id`.
    pub fn deep_clone(&self, env_id: crate::environment::EnvId) -> (r: ConstraintCollection)
        requires
            self.wf(),
        ensures
            r.wf(),
            r.entries().len() == self.entries().len(),
            forall|i: int| 0 <= i < self.entries().len() ==> {
                let (n, c) = #[trigger] r.entries()[i];
                let (n0, c0) = self.entries()[i];
                &&& n == n0
                &&& c.lhs.env_id == env_id
                &&& c.lhs.same_but_env(&c0.lhs)
                &&& forall|vt| c0.lhs.wf(vt) ==> c.lhs.wf(vt)
                &&& c.rhs == c0.rhs
                &&& c.comparator == c0.comparator
                &&& c.name@ == c0.name@
            },
    {
        let ghost es = self.entries();
        let mut out = ConstraintCollection::default();
        let n = self.len();
        let mut i: usize = 0;
        while i < n
            invariant
                0 <= i <= n,
                n == es.len(),
                es == self.entries(),
                distinct_names(es),
                out.wf(),
                out.entries().len() == i,
                forall|j: int| 0 <= j < i ==> {
                    let (nm, c) = #[trigger] out.entries()[j];
                    let (n0, c0) = es[j];
                    &&& nm == n0
                    &&& c.lhs.env_id == env_id
                    &&& c.lhs.same_but_env(&c0.lhs)
                    &&& forall|vt| c0.lhs.wf(vt) ==> c.lhs.wf(vt)
                    &&& c.rhs == c0.rhs
                    &&& c.comparator == c0.comparator
                    &&& c.name@ == c0.name@
                },
            decreases n - i,
        {
            let ghost before = out.entries();
            let (name, c) = self.get_index(i);
            let copy = c.deep_clone(env_id);
            let key = name.clone();
            proof {
                assert(find_name(before, key@) is None) by {
                    if exists|k: int| 0 <= k < before.len() && (#[trigger] before[k]).0 == key@ {
                        let k = choose|k: int| 0 <= k < before.len() && (#[trigger] before[k]).0 == key@;
                        assert(before[k].0 == es[k].0);
                        assert(es[k].0 != es[i as int].0);
                    }
                }
            }
            let _ = table_insert_fresh(&mut out.data, key, copy);
            proof {
                assert forall|a: int, b: int| 0 <= a < b < out.entries().len() implies out.entries()[a].0
                    != out.entries()[b].0 by {
                    if b == before.len() {
                        assert(out.entries()[a] == before[a]);
                        assert(before[a].0 == es[a].0);
                        assert(es[a].0 != es[i as int].0);
                    } else {
                        assert(out.entries()[a] == before[a] && out.entries()[b] == before[b]);
                    }
                }
                assert forall|j: int| 0 <= j < i + 1 implies {
                    let (nm, c) = #[trigger] out.entries()[j];
                    let (n0, c0) = es[j];
                    &&& nm == n0
                    &&& c.lhs.env_id == env_id
                    &&& c.lhs.same_but_env(&c0.lhs)
                    &&& forall|vt| c0.lhs.wf(vt) ==> c.lhs.wf(vt)
                    &&& c.rhs == c0.rhs
                    &&& c.comparator == c0.comparator
                    &&& c.name@ == c0.name@
                } by {
                    if j < i {
                        assert(out.entries()[j] == before[j]);
                    }
                }
            }
            i = i + 1;
        }
        out
    }

    /// Every left-hand side can be compared.
    pub open spec fn comparable(&self) -> bool {
        forall|i: int| 0 <= i < self.entries().len() ==> (#[trigger] self.entries()[i]).1.lhs.comparable()
    }

    /// The two collections are of the same size, and each constraint of `self` has an
    /// equal constraint of the same name in `other`.
    pub open spec fn equals(&self, other: &ConstraintCollection) -> bool {
        &&& self.entries().len() == other.entries().len()
        &&& forall|i: int| 0 <= i < self.entries().len() ==> match find_name(other.entries(), #[trigger] self.entries()[i].0) {
            Some(j) => self.entries()[i].1.equals(&other.entries()[j].1),
            None => false,
        }
    }

    /// Whether the two collections are of the same size and each constraint of `self`
    /// has an equal constraint of the same name in `other`.
    pub fn eq(&self, other: &ConstraintCollection) -> (r: bool)
        requires
            self.wf(),
            other.wf(),
            self.comparable(),
            other.comparable(),
        ensures
            r == self.equals(other),
    {
        let n = self.len();
        if n != other.len() {
            return false;
        }
        let mut i: usize = 0;
        while i < n
            invariant
                0 <= i <= n,
                n == self.entries().len(),
                n == other.entries().len(),
                self.wf(),
                other.wf(),
                self.comparable(),
                other.comparable(),
                forall|k: int| 0 <= k < i ==> match find_name(other.entries(), #[trigger] self.entries()[k].0) {
                    Some(j) => self.entries()[k].1.equals(&other.entries()[j].1),
                    None => false,
                },
            decreases n - i,
        {
            let (name, c) = self.get_index(i);
            match table_get_index_of(&other.data, name.as_str()) {
                Some(j) => {
                    proof {
                        other.lemma_find_name(name@, j as int);
                    }
                    let d = other.get_index(j).1;
                    if !c.eq(d) {
                        return false;
                    }
                },
                None => {
                    proof {
                        assert(find_name(other.entries(), name@) is None);
                    }
                    return false;
                },
            }
            i = i + 1;
        }
        true
    }

    /// The two collections are of the same size, and each constraint of `self` has a
    /// constraint of the same name and equal contents in `other`.
    pub open spec fn contents_equal(&self, other: &ConstraintCollection) -> bool {
        &&& self.entries().len() == other.entries().len()
        &&& forall|i: int| 0 <= i < self.entries().len() ==> match find_name(other.entries(), #[trigger] self.entries()[i].0) {
            Some(j) => self.entries()[i].1.contents_equal(&other.entries()[j].1),
            None => false,
        }
    }

    /// Whether the two collections are of the same size and each constraint of `self`
    /// has a constraint of the same name and equal contents in `other`, whatever their
    /// environments.
    pub fn is_equal_contents(&self, other: &ConstraintCollection) -> (r: bool)
        requires
            self.wf(),
            other.wf(),
            self.comparable(),
            other.comparable(),
        ensures
            r == self.contents_equal(other),
    {
        let n = self.len();
        if n != other.len() {
            return false;
        }
        let mut i: usize = 0;
        while i < n
            invariant
                0 <= i <= n,
                n == self.entries().len(),
                n == other.entries().len(),
                self.wf(),
                other.wf(),
                self.comparable(),
                other.comparable(),
                forall|k: int| 0 <= k < i ==> match find_name(other.entries(), #[trigger] self.entries()[k].0) {
                    Some(j) => self.entries()[k].1.contents_equal(&other.entries()[j].1),
                    None => false,
                },
            decreases n - i,
        {
            let (name, c) = self.get_index(i);
            match table_get_index_of(&other.data, name.as_str()) {
                Some(j) => {
                    proof {
                        other.lemma_find_name(name@, j as int);
                    }
                    let d = other.get_index(j).1;
                    if !c.is_equal_contents(d) {
                        return false;
                    }
                },
                None => {
                    proof {
                        assert(find_name(other.entries(), name@) is None);
                    }
                    return false;
                },
            }
            i = i + 1;
        }
        true
    }

    /// Variable `u` occurs in the left-hand side of a constraint.
    pub open spec fn uses(&self, u: u32) -> bool {
        exists|i: int| 0 <= i < self.entries().len() && (#[trigger] self.entries()[i]).1.lhs.is_active(u)
    }

    /// The types of the variables of the left-hand sides, each once.
    pub fn vtypes(&self, env: &Environment) -> (r: Vec<Vtype>)
        requires
            env.wf(),
            forall|i: int| 0 <= i < self.entries().len() ==> (#[trigger] self.entries()[i]).1.lhs.belongs_to(env),
        ensures
            forall|a: int, b: int| 0 <= a < b < r@.len() ==> r@[a] != r@[b],
            forall|t: Vtype| #[trigger] r@.contains(t) <==> exists|u: u32|
                #[trigger] self.uses(u) && env.vtypes()[u as int] == t,
    {
        let n = env.num_variables();
        let mut marks: Vec<bool> = Vec::new();
        let mut v: usize = 0;
        while v < n
            invariant
                0 <= v <= n,
                n == env.len(),
                marks@.len() == v,
                forall|k: int| 0 <= k < v ==> !marks@[k],
            decreases n - v,
        {
            marks.push(false);
            v = v + 1;
        }
        let m = self.len();
        let mut i: usize = 0;
        while i < m
            invariant
                0 <= i <= m,
                m == self.entries().len(),
                n == env.len(),
                marks@.len() == n,
                forall|j: int| 0 <= j < self.entries().len() ==> (#[trigger] self.entries()[j]).1.lhs.belongs_to(env),
                forall|u: u32| (u as int) < n ==> marks@[u as int] == exists|j: int|
                    0 <= j < i && (#[trigger] self.entries()[j]).1.lhs.is_active(u),
            decreases m - i,
        {
            let c = self.get_index(i).1;
            proof {
                assert(c.lhs.belongs_to(env));
            }
            let mut w: usize = 0;
            while w < c.lhs.active.len()
                invariant
                    0 <= w <= c.lhs.active.len(),
                    c.lhs.active@.len() <= n,
                    marks@.len() == n,
                    forall|u: u32| (u as int) < n ==> marks@[u as int] == ((exists|j: int|
                        0 <= j < i && (#[trigger] self.entries()[j]).1.lhs.is_active(u)) || ((u as int) < w
                        && c.lhs.is_active(u))),
                decreases c.lhs.active.len() - w,
            {
                if c.lhs.active[w] {
                    marks.set(w, true);
                }
                w = w + 1;
            }
            proof {
                assert forall|u: u32| (u as int) < n implies marks@[u as int] == exists|j: int|
                    0 <= j < i + 1 && (#[trigger] self.entries()[j]).1.lhs.is_active(u) by {
                    if c.lhs.is_active(u) {
                        assert(self.entries()[i as int].1.lhs.is_active(u));
                    }
                    if exists|j: int| 0 <= j < i + 1 && (#[trigger] self.entries()[j]).1.lhs.is_active(u) {
                        let j = choose|j: int| 0 <= j < i + 1 && (#[trigger] self.entries()[j]).1.lhs.is_active(u);
                        if j == i {
                            assert(c.lhs.is_active(u));
                        }
                    }
                }
            }
            i = i + 1;
        }
        let r = crate::model::unique_marked_vtypes(env, &marks);
        proof {
            assert forall|t: Vtype| #[trigger] r@.contains(t) <==> exists|u: u32|
                #[trigger] self.uses(u) && env.vtypes()[u as int] == t by {
                if r@.contains(t) {
                    let u = choose|u: u32| (u as int) < marks@.len() && #[trigger] marks@[u as int]
                        && env.vtypes()[u as int] == t;
                    assert(self.uses(u));
                }
                if exists|u: u32| #[trigger] self.uses(u) && env.vtypes()[u as int] == t {
                    let u = choose|u: u32| #[trigger] self.uses(u) && env.vtypes()[u as int] == t;
                    let j = choose|j: int| 0 <= j < self.entries().len() && (#[trigger] self.entries()[j]).1.lhs.is_active(u);
                    assert(self.entries()[j].1.lhs.belongs_to(env));
                    assert((u as int) < marks@.len() && marks@[u as int]);
                }
            }
        }
        r
    }

    /// The comparators of the constraints, each once, in the order of their first use.
    pub fn ctypes(&self) -> (r: Vec<Comparator>)
        ensures
            r@ == unique_comparators(self.entries()),
    {
        let mut r: Vec<Comparator> = Vec::new();
        let n = self.len();
        let mut i: usize = 0;
        while i < n
            invariant
                0 <= i <= n,
                n == self.entries().len(),
                r@ == unique_comparators(self.entries().take(i as int)),
            decreases n - i,
        {
            let c = self.get_index(i).1.comparator;
            proof {
                assert(self.entries().take(i + 1).drop_last() =~= self.entries().take(i as int));
            }
            let mut seen = false;
            let mut j: usize = 0;
            while j < r.len()
                invariant
                    0 <= j <= r.len(),
                    seen == exists|k: int| 0 <= k < j && r@[k] == c,
                decreases r.len() - j,
            {
                if r[j] == c {
                    seen = true;
                }
                j = j + 1;
            }
            if !seen {
                r.push(c);
            }
            i = i + 1;
        }
        proof {
            assert(self.entries().take(n as int) =~= self.entries());
        }
        r
    }

    /// Replaces every occurrence of `target` in the left-hand sides of all constraints
    /// by `replacement`; an error, with the collection unchanged, when the target or the
    /// replacement belongs to another environment than `env`.
    pub fn substitute(&mut self, env: &Environment, target: &VarRef, replacement: &Expression) -> (r:
        Result<(), DifferentEnvsErr>)
        requires
            old(self).wf(),
            forall|i: int| 0 <= i < old(self).entries().len() ==> (#[trigger] old(self).entries()[i]).1.lhs.belongs_to(env),
            target.env_id == env.id && replacement.env_id == env.id ==> {
                &&& replacement.belongs_to(env)
                &&& (target.id as nat) < env.len()
                &&& forall|i: int| 0 <= i < old(self).entries().len() ==> (#[trigger] old(self).entries()[i]).1.lhs.subst_bound(target.id, replacement.abs_sum()) <= Bias::MAX
            },
        ensures
            r is Err <==> (target.env_id != env.id || replacement.env_id != env.id),
            r is Err ==> final(self).entries() == old(self).entries(),
            final(self).wf(),
            r is Ok ==> {
                &&& final(self).entries().len() == old(self).entries().len()
                &&& forall|i: int| 0 <= i < old(self).entries().len() ==> {
                    let (n, c) = #[trigger] final(self).entries()[i];
                    let (n0, c0) = old(self).entries()[i];
                    &&& n == n0
                    &&& c.rhs == c0.rhs
                    &&& c.comparator == c0.comparator
                    &&& c.name == c0.name
                    &&& c.lhs.belongs_to(env)
                    &&& forall|s: Seq<int>| crate::monomial::valid_sample(env.vtypes(), s) ==> #[trigger] c.lhs.value(s)
                        == c0.lhs.value(s.update(target.id as int, replacement.value(s)))
                    &&& forall|u: u32| #[trigger] c.lhs.is_active(u) == ((c0.lhs.is_active(u) && u != target.id) || (
                    crate::substitution::mentions(c0.lhs.terms@, target.id) && replacement.is_active(u) && (u != target.id || crate::substitution::mentions(replacement.terms@, target.id))))
                }
            },
    {
        if target.env_id != env.id || replacement.env_id != env.id {
            return Err(DifferentEnvsErr);
        }
        let ghost es = self.entries();
        let n = self.len();
        let mut out = table_new();
        let mut i: usize = 0;
        while i < n
            invariant
                0 <= i <= n,
                n == es.len(),
                table_entries(self.data) == es.skip(i as int),
                distinct_names(es),
                target.env_id == env.id,
                replacement.env_id == env.id,
                replacement.belongs_to(env),
                (target.id as nat) < env.len(),
                forall|j: int| 0 <= j < es.len() ==> (#[trigger] es[j]).1.lhs.belongs_to(env),
                forall|j: int| 0 <= j < es.len() ==> (#[trigger] es[j]).1.lhs.subst_bound(target.id, replacement.abs_sum()) <= Bias::MAX,
                table_entries(out).len() == i,
                forall|j: int| 0 <= j < i ==> {
                    let (nm, c) = #[trigger] table_entries(out)[j];
                    let (n0, c0) = es[j];
                    &&& nm == n0
                    &&& c.rhs == c0.rhs
                    &&& c.comparator == c0.comparator
                    &&& c.name == c0.name
                    &&& c.lhs.belongs_to(env)
                    &&& forall|s: Seq<int>| crate::monomial::valid_sample(env.vtypes(), s) ==> #[trigger] c.lhs.value(s)
                        == c0.lhs.value(s.update(target.id as int, replacement.value(s)))
                    &&& forall|u: u32| #[trigger] c.lhs.is_active(u) == ((c0.lhs.is_active(u) && u != target.id) || (
                    crate::substitution::mentions(c0.lhs.terms@, target.id) && replacement.is_active(u) && (u != target.id || crate::substitution::mentions(replacement.terms@, target.id))))
                },
            decreases n - i,
        {
            let ghost rest = table_entries(self.data);
            let ghost before = table_entries(out);
            proof {
                assert(rest[0] == es[i as int]);
            }
            let removed = table_shift_remove_index(&mut self.data, 0);
            proof {
                assert(table_entries(self.data) =~= es.skip(i + 1));
            }
            match removed {
                Some((name, c)) => {
                    let mut c = c;
                    let res = c.substitute(env, target, replacement);
                    proof {
                        assert(res is Ok);
                        assert(find_name(before, name@) is None) by {
                            if exists|k: int| 0 <= k < before.len() && (#[trigger] before[k]).0 == name@ {
                                let k = choose|k: int| 0 <= k < before.len() && (#[trigger] before[k]).0 == name@;
                                assert(before[k].0 == es[k].0);
                                assert(es[k].0 != es[i as int].0);
                            }
                        }
                    }
                    let _ = table_insert(&mut out, name, c);
                },
                None => {
                    proof {
                        assert(false);
                    }
                },
            }
            i = i + 1;
        }
        self.data = out;
        proof {
            assert forall|a: int, b: int| 0 <= a < b < self.entries().len() implies self.entries()[a].0
                != self.entries()[b].0 by {
                assert(es[a].0 != es[b].0);
            }
        }
        Ok(())
    }
}

impl ConstraintCollection {
    /// Renumbers the left-hand side of every constraint once variable `t`, which none of
    /// them uses, is removed from `env`; names, order, right-hand sides and comparators
    /// stay.
    pub fn renumber_without(&mut self, env: &Environment, t: VarIndex)
        requires
            old(self).wf(),
            forall|i: int| 0 <= i < old(self).entries().len() ==> (#[trigger] old(self).entries()[i]).1.lhs.belongs_to(env),
            forall|i: int| 0 <= i < old(self).entries().len() ==> !(#[trigger] old(self).entries()[i]).1.lhs.is_active(t),
            (t as nat) < env.len(),
        ensures
            final(self).wf(),
            final(self).entries().len() == old(self).entries().len(),
            forall|i: int| 0 <= i < old(self).entries().len() ==> {
                let (n, c) = #[trigger] final(self).entries()[i];
                let (n0, c0) = old(self).entries()[i];
                &&& n == n0
                &&& c.rhs == c0.rhs
                &&& c.comparator == c0.comparator
                &&& c.name == c0.name
                &&& renumbered(c.lhs, c0.lhs, t)
                &&& c.lhs.wf(env.vtypes().remove(t as int))
                &&& forall|s: Seq<int>| s.len() == env.len() ==> #[trigger] c.lhs.value(s.remove(t as int))
                    == c0.lhs.value(s)
            },
    {
        let ghost es = self.entries();
        let n = self.len();
        let mut out = table_new();
        let mut i: usize = 0;
        while i < n
            invariant
                0 <= i <= n,
                n == es.len(),
                table_entries(self.data) == es.skip(i as int),
                distinct_names(es),
                (t as nat) < env.len(),
                forall|j: int| 0 <= j < es.len() ==> (#[trigger] es[j]).1.lhs.belongs_to(env),
                forall|j: int| 0 <= j < es.len() ==> !(#[trigger] es[j]).1.lhs.is_active(t),
                table_entries(out).len() == i,
                forall|j: int| 0 <= j < i ==> {
                    let (nm, c) = #[trigger] table_entries(out)[j];
                    let (n0, c0) = es[j];
                    &&& nm == n0
                    &&& c.rhs == c0.rhs
                    &&& c.comparator == c0.comparator
                    &&& c.name == c0.name
                    &&& renumbered(c.lhs, c0.lhs, t)
                    &&& c.lhs.wf(env.vtypes().remove(t as int))
                    &&& forall|s: Seq<int>| s.len() == env.len() ==> #[trigger] c.lhs.value(s.remove(t as int))
                        == c0.lhs.value(s)
                },
            decreases n - i,
        {
            let ghost rest = table_entries(self.data);
            let ghost before = table_entries(out);
            proof {
                assert(rest[0] == es[i as int]);
            }
            let removed = table_shift_remove_index(&mut self.data, 0);
            proof {
                assert(table_entries(self.data) =~= es.skip(i + 1));
            }
            match removed {
                Some((name, c)) => {
                    let lhs = c.lhs.renumbered_without(env, t);
                    let nc = Constraint { lhs, rhs: c.rhs, comparator: c.comparator, name: c.name };
                    proof {
                        assert(find_name(before, name@) is None) by {
                            if exists|k: int| 0 <= k < before.len() && (#[trigger] before[k]).0 == name@ {
                                let k = choose|k: int| 0 <= k < before.len() && (#[trigger] before[k]).0 == name@;
                                assert(before[k].0 == es[k].0);
                                assert(es[k].0 != es[i as int].0);
                            }
                        }
                    }
                    let _ = table_insert(&mut out, name, nc);
                },
                None => {
                    proof {
                        assert(false);
                    }
                },
            }
            i = i + 1;
        }
        self.data = out;
        proof {
            assert forall|a: int, b: int| 0 <= a < b < self.entries().len() implies self.entries()[a].0
                != self.entries()[b].0 by {
                assert(es[a].0 != es[b].0);
            }
        }
    }
}

/// A value made from nothing.
pub trait Create: Sized {
    fn create() -> Self;
}

impl Create for ConstraintCollection {
    /// An empty collection.
    fn create() -> (r: Self)
        ensures
            r.wf(),
            r.entries() == Seq::<(Seq<char>, Constraint)>::empty(),
    {
        ConstraintCollection::default()
    }
}

/// The comparators of the entries, each once, in the order of their first use.
pub open spec fn unique_comparators(es: Seq<(Seq<char>, Constraint)>) -> Seq<Comparator>
    decreases es.len(),
{
    if es.len() == 0 {
        Seq::empty()
    } else {
        let prev = unique_comparators(es.drop_last());
        if prev.contains(es.last().1.comparator) {
            prev
        } else {
            prev.push(es.last().1.comparator)
        }
    }
}

/// Inserting keeps the names distinct.
proof fn lemma_insert_names(es: Seq<(Seq<char>, Constraint)>, name: Seq<char>, c: Constraint)
    requires
        distinct_names(es),
    ensures
        distinct_names(entries_insert(es, name, c)),
{
    let r = entries_insert(es, name, c);
    match find_name(es, name) {
        Some(i) => {
            assert forall|a: int, b: int| 0 <= a < b < r.len() implies r[a].0 != r[b].0 by {
                assert(es[a].0 != es[b].0);
            }
        },
        None => {
            assert forall|a: int, b: int| 0 <= a < b < r.len() implies r[a].0 != r[b].0 by {
                if b == es.len() {
                    assert(es[a].0 != name);
                } else {
                    assert(es[a].0 != es[b].0);
                }
            }
        },
    }
}

/// Removing an entry keeps the names distinct.
pub proof fn lemma_remove_names(es: Seq<(Seq<char>, Constraint)>, i: int)
    requires
        distinct_names(es),
        0 <= i < es.len(),
    ensures
        distinct_names(es.remove(i)),
{
    let r = es.remove(i);
    assert forall|a: int, b: int| 0 <= a < b < r.len() implies r[a].0 != r[b].0 by {
        let ea = if a < i { a } else { a + 1 };
        let eb = if b < i { b } else { b + 1 };
        assert(r[a] == es[ea] && r[b] == es[eb]);
        assert(es[ea].0 != es[eb].0);
    }
}

} // verus!
