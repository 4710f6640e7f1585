//! Object types: the tables that bind method names to algorithms, and the
//! linking of a type's declarations into them.

use vstd::prelude::*;
use crate::ast;
use crate::data::FieldType;
use crate::prelude::{
    dict_find, dict_get, dict_insert, entries_map, lemma_entries_map, Dict, Entries, Fault,
};
use crate::runtime::{names_view, Algorithm, AlgorithmView};

verus! {

/// A term of a role: the signature of a constructor or of a function.
#[derive(Debug)]
pub enum RoleTerm {
    Constructor(Vec<FieldType>),
    Function(Vec<FieldType>),
}

/// A role: the signatures that an interface of that role offers.
pub type Role = Dict<RoleTerm>;

/// An interface of a type: for each method the name of the algorithm that
/// implements it.
#[derive(Debug)]
pub struct Interface {
    pub implementors: Dict<String>,
}

pub type InterfaceView = Entries<Seq<char>>;

pub open spec fn name_viewer() -> spec_fn(String) -> Seq<char> {
    |s: String| s@
}

impl View for Interface {
    type V = InterfaceView;

    open spec fn view(&self) -> InterfaceView {
        entries_map(self.implementors@, name_viewer())
    }
}

/// An object type after linking: its interfaces and its algorithms, by name.
#[derive(Debug)]
pub struct ObjectType {
    pub interfaces: Dict<Interface>,
    pub algorithms: Dict<Algorithm>,
}

pub struct ObjectTypeView {
    pub interfaces: Entries<InterfaceView>,
    pub algorithms: Entries<AlgorithmView>,
}

pub open spec fn interface_viewer() -> spec_fn(Interface) -> InterfaceView {
    |i: Interface| i@
}

pub open spec fn algorithm_viewer() -> spec_fn(Algorithm) -> AlgorithmView {
    |a: Algorithm| a@
}

impl View for ObjectType {
    type V = ObjectTypeView;

    open spec fn view(&self) -> ObjectTypeView {
        ObjectTypeView {
            interfaces: entries_map(self.interfaces@, interface_viewer()),
            algorithms: entries_map(self.algorithms@, algorithm_viewer()),
        }
    }
}

/// The object types of an instance, by name.
pub type TypesView = Entries<ObjectTypeView>;

pub open spec fn type_viewer() -> spec_fn(ObjectType) -> ObjectTypeView {
    |t: ObjectType| t@
}

pub open spec fn types_view(types: Entries<ObjectType>) -> TypesView {
    entries_map(types, type_viewer())
}

/// The name of the algorithm that implements `method` in the interface
/// `interface` of the type `object_type`.
pub open spec fn algorithm_name(
    types: TypesView,
    object_type: Seq<char>,
    interface: Seq<char>,
    method: Seq<char>,
) -> Option<Seq<char>> {
    match dict_get(types, object_type) {
        Some(t) => match dict_get(t.interfaces, interface) {
            Some(i) => dict_get(i, method),
            None => None,
        },
        None => None,
    }
}

/// The algorithm `alg_name` of the type `object_type`.
pub open spec fn algorithm(types: TypesView, object_type: Seq<char>, alg_name: Seq<char>)
    -> Option<AlgorithmView> {
    match dict_get(types, object_type) {
        Some(t) => dict_get(t.algorithms, alg_name),
        None => None,
    }
}

/// Resolves a method through an interface of a type to the name of its
/// algorithm. A missing type, interface or method is a `KeyError`.
pub fn get_algorithm_name<'a>(
    types: &'a Dict<ObjectType>,
    object_type_name: &String,
    interface_name: &String,
    method_name: &String,
) -> (r: Result<&'a String, Fault>)
    ensures
        match algorithm_name(types_view(types@), object_type_name@, interface_name@, method_name@) {
            Some(name) => r is Ok && r->Ok_0@ == name,
            None => r == Err::<&String, Fault>(Fault::KeyError),
        },
{
    proof {
        lemma_entries_map(types@, type_viewer(), object_type_name@);
    }
    match types.get(object_type_name) {
        Some(object_type) => {
            proof {
                lemma_entries_map(object_type.interfaces@, interface_viewer(), interface_name@);
            }
            match object_type.interfaces.get(interface_name) {
                Some(interface) => {
                    proof {
                        lemma_entries_map(interface.implementors@, name_viewer(), method_name@);
                    }
                    match interface.implementors.get(method_name) {
                        Some(name) => Ok(name),
                        None => Err(Fault::KeyError),
                    }
                },
                None => Err(Fault::KeyError),
            }
        },
        None => Err(Fault::KeyError),
    }
}

/// Resolves an algorithm of a type by its own name. A missing type or
/// algorithm is a `KeyError`.
pub fn get_algorithm<'a>(
    types: &'a Dict<ObjectType>,
    object_type_name: &String,
    alg_name: &String,
) -> (r: Result<&'a Algorithm, Fault>)
    ensures
        match algorithm(types_view(types@), object_type_name@, alg_name@) {
            Some(alg) => r is Ok && r->Ok_0@ == alg,
            None => r == Err::<&Algorithm, Fault>(Fault::KeyError),
        },
{
    proof {
        lemma_entries_map(types@, type_viewer(), object_type_name@);
    }
    match types.get(object_type_name) {
        Some(object_type) => {
            proof {
                lemma_entries_map(object_type.algorithms@, algorithm_viewer(), alg_name@);
            }
            match object_type.algorithms.get(alg_name) {
                Some(alg) => Ok(alg),
                None => Err(Fault::KeyError),
            }
        },
        None => Err(Fault::KeyError),
    }
}

/// A declaration of an object type.
#[derive(Debug)]
pub enum Item {
    Function(ast::Algorithm),
    Constructor(ast::Algorithm),
    /// An interface: the role it plays and, for each method, the name of the
    /// algorithm that implements it.
    Interface { object_type: Option<String>, role_name: String, implementors: Dict<String> },
    Role(Role),
}

/// The algorithm that an item declares, if it declares one.
pub open spec fn declared_algorithm(item: Item) -> Option<ast::Algorithm> {
    match item {
        Item::Function(alg) => Some(alg),
        Item::Constructor(alg) => Some(alg),
        _ => None,
    }
}

/// The object type after the first `n` declarations were taken in: each
/// algorithm lowered, each interface with its bindings. A name that comes
/// again replaces what it stood for; roles leave no trace.
pub open spec fn collected(items: Seq<(String, Item)>, n: int) -> ObjectTypeView
    decreases n,
{
    if n <= 0 {
        ObjectTypeView { interfaces: Seq::empty(), algorithms: Seq::empty() }
    } else {
        let prev = collected(items, n - 1);
        let name = items[n - 1].0@;
        match items[n - 1].1 {
            Item::Function(alg) => ObjectTypeView {
                algorithms: dict_insert(prev.algorithms, name, lowered_algorithm(alg)),
                ..prev
            },
            Item::Constructor(alg) => ObjectTypeView {
                algorithms: dict_insert(prev.algorithms, name, lowered_algorithm(alg)),
                ..prev
            },
            Item::Interface { implementors, .. } => ObjectTypeView {
                interfaces: dict_insert(
                    prev.interfaces,
                    name,
                    entries_map(implementors@, name_viewer()),
                ),
                ..prev
            },
            Item::Role(_) => prev,
        }
    }
}

/// An algorithm after lowering.
pub open spec fn lowered_algorithm(alg: ast::Algorithm) -> AlgorithmView {
    AlgorithmView { param_list: names_view(alg.param_list@), steps: ast::lower(alg.steps@) }
}

/// Whether every algorithm among the declarations can be lowered.
pub open spec fn algorithms_ok(items: Seq<(String, Item)>) -> bool {
    forall|i: int|
        0 <= i < items.len() ==> match declared_algorithm((#[trigger] items[i]).1) {
            Some(alg) => ast::algorithm_ok(alg),
            None => true,
        }
}

/// Whether every binding of every interface names an algorithm of the type.
pub open spec fn linked(t: ObjectTypeView) -> bool {
    forall|i: int, j: int|
        0 <= i < t.interfaces.len() && 0 <= j < t.interfaces[i].1.len() ==> dict_find(
            t.algorithms,
            (#[trigger] t.interfaces[i].1[j]).1,
        ) is Some
}

/// Whether `name` is the name of a role among the declarations.
pub open spec fn declares_role(items: Seq<(String, Item)>, name: Seq<char>) -> bool {
    exists|j: int| 0 <= j < items.len() && (#[trigger] items[j]).1 is Role && items[j].0@ == name
}

/// Whether every interface plays a role that is declared.
pub open spec fn roles_ok(items: Seq<(String, Item)>) -> bool {
    forall|i: int|
        0 <= i < items.len() && (#[trigger] items[i]).1 is Interface ==> declares_role(
            items,
            items[i].1->role_name@,
        )
}

/// Whether the declarations link to an object type.
pub open spec fn loadable(items: Seq<(String, Item)>) -> bool {
    &&& algorithms_ok(items)
    &&& roles_ok(items)
    &&& linked(collected(items, items.len() as int))
}

/// Whether `name` is the name of a role among the declarations.
fn has_role(items: &Vec<(String, Item)>, name: &String) -> (r: bool)
    ensures
        r == declares_role(items@, name@),
{
    let n = items.len();
    let mut j: usize = 0;
    while j < n
        invariant
            n == items@.len(),
            j <= n,
            forall|k: int|
                0 <= k < j ==> !((#[trigger] items@[k]).1 is Role && items@[k].0@ == name@),
        decreases n - j,
    {
        match &items[j].1 {
            Item::Role(_) => {
                if items[j].0 == *name {
                    return true;
                }
            },
            _ => {},
        }
        j += 1;
    }
    false
}

/// Whether every algorithm among the declarations can be lowered and every
/// interface plays a role that is declared.
fn check_items(items: &Vec<(String, Item)>) -> (r: bool)
    ensures
        r == (algorithms_ok(items@) && roles_ok(items@)),
{
    let n = items.len();
    let mut i: usize = 0;
    while i < n
        invariant
            n == items@.len(),
            i <= n,
            forall|j: int|
                0 <= j < i ==> match declared_algorithm((#[trigger] items@[j]).1) {
                    Some(alg) => ast::algorithm_ok(alg),
                    None => true,
                },
            forall|j: int|
                0 <= j < i && (#[trigger] items@[j]).1 is Interface ==> declares_role(
                    items@,
                    items@[j].1->role_name@,
                ),
        decreases n - i,
    {
        match &items[i].1 {
            Item::Function(alg) => {
                if !ast::check_algorithm(alg) {
                    return false;
                }
            },
            Item::Constructor(alg) => {
                if !ast::check_algorithm(alg) {
                    return false;
                }
            },
            Item::Interface { object_type, role_name, implementors } => {
                if !has_role(items, role_name) {
                    return false;
                }
            },
            Item::Role(_) => {},
        }
        i += 1;
    }
    true
}

/// Whether every binding of every interface of `t` names one of its
/// algorithms.
#[verifier::loop_isolation(false)]
fn check_linked(t: &ObjectType) -> (r: bool)
    ensures
        r == linked(t@),
{
    let n = t.interfaces.len();
    let mut i: usize = 0;
    while i < n
        invariant
            n == t.interfaces@.len(),
            i <= n,
            forall|a: int, b: int|
                0 <= a < i && 0 <= b < t@.interfaces[a].1.len() ==> dict_find(
                    t@.algorithms,
                    (#[trigger] t@.interfaces[a].1[b]).1,
                ) is Some,
        decreases n - i,
    {
        let interface = t.interfaces.entry(i).1;
        assert(t@.interfaces[i as int].1 == interface@);
        let m = interface.implementors.len();
        let mut j: usize = 0;
        while j < m
            invariant
                m == interface.implementors@.len(),
                j <= m,
                forall|b: int|
                    0 <= b < j ==> dict_find(t@.algorithms, (#[trigger] interface@[b]).1) is Some,
            decreases m - j,
        {
            let alg_name = interface.implementors.entry(j).1;
            assert(interface@[j as int].1 == alg_name@);
            proof {
                lemma_entries_map(t.algorithms@, algorithm_viewer(), alg_name@);
            }
            if !t.algorithms.contains_key(alg_name) {
                return false;
            }
            j += 1;
        }
        i += 1;
    }
    true
}

/// Links the declarations of an object type: lowers every algorithm and
/// takes every interface with its bindings. A declaration that cannot be
/// lowered, a binding to an algorithm that is not declared, or an interface
/// of a role that is not declared is a `LoadError`.
pub fn collect(items: Vec<(String, Item)>) -> (r: Result<ObjectType, Fault>)
    ensures
        match r {
            Ok(t) => loadable(items@) && t@ == collected(items@, items@.len() as int),
            Err(f) => f == Fault::LoadError && !loadable(items@),
        },
{
    if !check_items(&items) {
        return Err(Fault::LoadError);
    }
    let t = collect_checked(items);
    if !check_linked(&t) {
        return Err(Fault::LoadError);
    }
    Ok(t)
}

/// Takes declarations in, one after the other.
fn collect_checked(items: Vec<(String, Item)>) -> (t: ObjectType)
    requires
        algorithms_ok(items@),
    ensures
        t@ == collected(items@, items@.len() as int),
{
    let ghost all = items@;
    let mut items = items;
    let n = items.len();
    let mut t = ObjectType { interfaces: Dict::new(), algorithms: Dict::new() };
    let mut i: usize = 0;
    assert(t@.interfaces =~= Seq::empty());
    assert(t@.algorithms =~= Seq::empty());
    while i < n
        invariant
            n == all.len(),
            i <= n,
            algorithms_ok(all),
            items@ == all.subrange(i as int, n as int),
            t@ == collected(all, i as int),
        decreases n - i,
    {
        let (name, item) = items.remove(0);
        assert(items@ =~= all.subrange(i as int + 1, n as int));
        assert(all[i as int] == (name, item));
        proof {
            lemma_entries_map(t.algorithms@, algorithm_viewer(), name@);
            lemma_entries_map(t.interfaces@, interface_viewer(), name@);
        }
        match item {
            Item::Function(alg) => {
                let _ = t.algorithms.insert(name, ast::convert_algorithm(alg));
            },
            Item::Constructor(alg) => {
                let _ = t.algorithms.insert(name, ast::convert_algorithm(alg));
            },
            Item::Interface { object_type, role_name, implementors } => {
                let _ = t.interfaces.insert(name, Interface { implementors });
            },
            Item::Role(_) => {},
        }
        i += 1;
    }
    t
}

} // verus!
