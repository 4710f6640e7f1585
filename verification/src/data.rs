//! Values, objects and sets of object references.

use vstd::prelude::*;
use vstd::string::*;
use crate::event::{Event, EventHandle, EventQueue, EventView, QueueView, Time};
use crate::prelude::{
    dict_find, dict_get, dict_insert, dict_remove, entries_map, lemma_entries_map, Dict, Entries,
    Fault,
};

verus! {

/// A number of the language: a double, held by its bit pattern. The library
/// moves numbers about and leaves their arithmetic to the host.
#[derive(Clone, Copy, PartialEq, Eq, Structural, Debug)]
pub struct Num {
    pub bits: u64,
}

/// An object, by its place in the instance's store.
pub type Object = usize;

/// The declared type of a field.
#[derive(Debug)]
pub enum FieldType {
    Num,
    VRef(String, String),
    TRef(String),
}

/// An object seen through one of its tables.
#[derive(Debug)]
pub struct ObjectRef {
    pub table: String,
    pub data: Object,
}

pub struct ObjectRefView {
    pub table: Seq<char>,
    pub data: Object,
}

impl View for ObjectRef {
    type V = ObjectRefView;

    open spec fn view(&self) -> ObjectRefView {
        ObjectRefView { table: self.table@, data: self.data }
    }
}

impl Clone for ObjectRef {
    fn clone(&self) -> (r: Self)
        ensures
            r@ == self@,
    {
        ObjectRef { table: self.table.clone(), data: self.data }
    }
}

/// An object reference as a member of a set: two keys are the same member
/// when they name the same object, whatever their tables.
#[derive(Debug)]
pub struct ObjectKey(pub ObjectRef);

impl ObjectKey {
    pub fn as_usize(&self) -> (r: usize)
        ensures
            r == self.0.data,
    {
        self.0.data
    }
}

/// The members of a set, in the order in which they came in.
pub type Members = Seq<ObjectRefView>;

/// Index of the member of `s` that names object `id`.
pub open spec fn set_find(s: Members, id: Object) -> Option<int>
    decreases s.len(),
{
    if s.len() == 0 {
        None
    } else if s.last().data == id && set_find(s.drop_last(), id) is None {
        Some(s.len() - 1)
    } else {
        set_find(s.drop_last(), id)
    }
}

pub open spec fn set_contains(s: Members, id: Object) -> bool {
    set_find(s, id) is Some
}

/// `s` with `x` as a member: unchanged where its object is one already.
pub open spec fn set_add(s: Members, x: ObjectRefView) -> Members {
    if set_contains(s, x.data) {
        s
    } else {
        s.push(x)
    }
}

/// `s` without the member that names object `id`.
pub open spec fn set_remove(s: Members, id: Object) -> Members {
    match set_find(s, id) {
        Some(i) => s.remove(i),
        None => s,
    }
}

/// Number of members of `s` that name object `id`.
pub open spec fn set_count(s: Members, id: Object) -> nat
    decreases s.len(),
{
    if s.len() == 0 {
        0
    } else {
        set_count(s.drop_last(), id) + if s.last().data == id {
            1nat
        } else {
            0nat
        }
    }
}

/// No object is named by two members.
pub open spec fn set_distinct(s: Members) -> bool {
    forall|id: Object| set_count(s, id) <= 1
}

pub proof fn lemma_set_find(s: Members, id: Object)
    ensures
        match set_find(s, id) {
            Some(i) => 0 <= i < s.len() && s[i].data == id && forall|j: int|
                0 <= j < i ==> (#[trigger] s[j]).data != id,
            None => forall|j: int| 0 <= j < s.len() ==> (#[trigger] s[j]).data != id,
        },
        set_find(s, id) is Some <==> set_count(s, id) > 0,
    decreases s.len(),
{
    if s.len() > 0 {
        let t = s.drop_last();
        lemma_set_find(t, id);
        assert(forall|j: int| 0 <= j < t.len() ==> t[j] == s[j]);
    }
}

pub proof fn lemma_set_count_push(s: Members, x: ObjectRefView, id: Object)
    ensures
        set_count(s.push(x), id) == set_count(s, id) + if x.data == id {
            1nat
        } else {
            0nat
        },
{
    assert(s.push(x).drop_last() =~= s);
}

pub proof fn lemma_set_count_remove(s: Members, i: int, id: Object)
    requires
        0 <= i < s.len(),
    ensures
        set_count(s, id) == set_count(s.remove(i), id) + if s[i].data == id {
            1nat
        } else {
            0nat
        },
    decreases s.len(),
{
    if i == s.len() - 1 {
        assert(s.remove(i) =~= s.drop_last());
    } else {
        lemma_set_count_remove(s.drop_last(), i, id);
        assert(s.remove(i).drop_last() =~= s.drop_last().remove(i));
        assert(s.remove(i).last() == s.last());
    }
}

/// Adding a member twice leaves the set as adding it once does, with exactly
/// one member for its object, and no object comes to be named twice.
pub proof fn law_set_add_idempotent(s: Members, x: ObjectRefView)
    requires
        set_distinct(s),
    ensures
        set_add(set_add(s, x), x) == set_add(s, x),
        set_count(set_add(s, x), x.data) == 1,
        set_distinct(set_add(s, x)),
{
    lemma_set_find(s, x.data);
    lemma_set_find(set_add(s, x), x.data);
    lemma_set_count_push(s, x, x.data);
    assert forall|id: Object| set_count(set_add(s, x), id) <= 1 by {
        lemma_set_count_push(s, x, id);
    }
}

/// Removing an object that the set does not hold changes nothing.
pub proof fn law_set_remove_absent(s: Members, id: Object)
    requires
        !set_contains(s, id),
    ensures
        set_remove(s, id) == s,
{
}

/// After a removal the object is no member, the other members stay, and no
/// object comes to be named twice.
pub proof fn law_set_remove_present(s: Members, id: Object)
    requires
        set_distinct(s),
    ensures
        !set_contains(set_remove(s, id), id),
        forall|other: Object|
            other != id ==> set_count(set_remove(s, id), other) == set_count(s, other),
        set_distinct(set_remove(s, id)),
{
    lemma_set_find(s, id);
    let t = set_remove(s, id);
    match set_find(s, id) {
        Some(i) => {
            lemma_set_count_remove(s, i, id);
            assert forall|other: Object| set_count(t, other) <= set_count(s, other) && (other
                != id ==> set_count(t, other) == set_count(s, other)) by {
                lemma_set_count_remove(s, i, other);
            }
        },
        None => {},
    }
    lemma_set_find(t, id);
}

/// A set of object references, told apart by the object they name.
#[derive(Debug)]
pub struct ObjectSet {
    pub members: Vec<ObjectRef>,
}

impl View for ObjectSet {
    type V = Members;

    open spec fn view(&self) -> Members {
        Seq::new(self.members@.len(), |i: int| self.members@[i]@)
    }
}

impl ObjectSet {
    /// Whether the set is valid: no object is named by two members. A new
    /// set is valid, and every operation keeps one so.
    pub open spec fn wf(&self) -> bool {
        set_distinct(self@)
    }

    pub fn new() -> (r: Self)
        ensures
            r@ == Seq::<ObjectRefView>::empty(),
            r.wf(),
    {
        let r = ObjectSet { members: Vec::new() };
        assert(r@ =~= Seq::<ObjectRefView>::empty());
        r
    }

    pub fn len(&self) -> (n: usize)
        ensures
            n == self@.len(),
    {
        self.members.len()
    }

    pub fn is_empty(&self) -> (r: bool)
        ensures
            r == (self@.len() == 0),
    {
        self.members.len() == 0
    }

    /// The member at position `i`.
    pub fn member(&self, i: usize) -> (r: &ObjectRef)
        requires
            i < self@.len(),
        ensures
            r@ == self@[i as int],
    {
        &self.members[i]
    }

    /// Position of the member that names `id`.
    pub fn position(&self, id: Object) -> (r: Option<usize>)
        ensures
            match r {
                Some(i) => set_find(self@, id) == Some(i as int) && i < self@.len(),
                None => set_find(self@, id) is None,
            },
    {
        let n = self.members.len();
        let mut i: usize = 0;
        while i < n
            invariant
                n == self.members@.len(),
                i <= n,
                forall|j: int| 0 <= j < i ==> (#[trigger] self@[j]).data != id,
            decreases n - i,
        {
            if self.members[i].data == id {
                proof {
                    lemma_set_find(self@, id);
                    assert(self@[i as int].data == id);
                }
                return Some(i);
            }
            i += 1;
        }
        proof {
            lemma_set_find(self@, id);
        }
        None
    }

    pub fn contains(&self, id: Object) -> (r: bool)
        ensures
            r == set_contains(self@, id),
    {
        self.position(id).is_some()
    }

    /// Makes `x` a member. A set that holds its object already stays as it is.
    pub fn insert(&mut self, x: ObjectRef)
        ensures
            final(self)@ == set_add(old(self)@, x@),
            old(self).wf() ==> final(self).wf() && set_count(final(self)@, x.data) == 1,
    {
        proof {
            if self.wf() {
                law_set_add_idempotent(self@, x@);
            }
        }
        if self.position(x.data).is_none() {
            let ghost before = self@;
            self.members.push(x);
            assert(self@ =~= before.push(x@));
        }
    }

    /// Takes out the member that names `id`. A set without it stays as it is.
    pub fn remove(&mut self, id: Object)
        ensures
            final(self)@ == set_remove(old(self)@, id),
            old(self).wf() ==> final(self).wf() && set_count(final(self)@, id) == 0,
    {
        proof {
            if self.wf() {
                law_set_remove_present(self@, id);
                lemma_set_find(set_remove(self@, id), id);
            }
        }
        match self.position(id) {
            Some(i) => {
                let ghost before = self@;
                let _ = self.members.remove(i);
                assert(self@ =~= before.remove(i as int));
            },
            None => {},
        }
    }

    /// Takes one member out and returns it: the one that came in last.
    pub fn pop(&mut self) -> (r: Option<ObjectRef>)
        ensures
            match r {
                Some(x) => old(self)@.len() > 0 && x@ == old(self)@.last() && final(self)@
                    == old(self)@.drop_last(),
                None => old(self)@.len() == 0 && final(self)@ == old(self)@,
            },
            old(self).wf() ==> final(self).wf(),
    {
        let ghost before = self@;
        let r = self.members.pop();
        proof {
            if before.len() > 0 {
                assert(self@ =~= before.drop_last());
                if set_distinct(before) {
                    lemma_set_drop_last(before);
                }
            } else {
                assert(self@ =~= before);
            }
        }
        r
    }
}

/// A set without its last member names no object twice if the set did not.
pub proof fn lemma_set_drop_last(s: Members)
    requires
        s.len() > 0,
        set_distinct(s),
    ensures
        set_distinct(s.drop_last()),
{
    assert forall|id: Object| set_count(s.drop_last(), id) <= 1 by {
        assert(set_count(s, id) <= 1);
    }
}

impl Clone for ObjectSet {
    fn clone(&self) -> (r: Self)
        ensures
            r@ == self@,
            r.wf() == self.wf(),
    {
        let mut members: Vec<ObjectRef> = Vec::new();
        let n = self.members.len();
        let mut i: usize = 0;
        while i < n
            invariant
                n == self.members@.len(),
                i <= n,
                members@.len() == i,
                forall|j: int| 0 <= j < i ==> (#[trigger] members@[j])@ == self.members@[j]@,
            decreases n - i,
        {
            members.push(self.members[i].clone());
            i += 1;
        }
        let r = ObjectSet { members };
        assert(r@ =~= self@);
        r
    }
}

/// Takes one member out of `set` and returns it.
pub fn set_pop(set: &mut ObjectSet) -> (r: Option<ObjectRef>)
    ensures
        match r {
            Some(x) => old(set)@.len() > 0 && x@ == old(set)@.last() && final(set)@ == old(set)@.drop_last(),
            None => old(set)@.len() == 0 && final(set)@ == old(set)@,
        },
        old(set).wf() ==> final(set).wf(),
{
    set.pop()
}

/// A value of the language.
#[derive(Debug)]
pub enum Field {
    Num(Num),
    /// An object with the table through which it is addressed.
    VRef(ObjectRef),
    /// An object without a table.
    TRef(Object),
    /// A tagged record: booleans, enumerations and the payloads that a match
    /// takes apart.
    Data(String, Data),
    ObjectSet(ObjectSet),
}

/// A mapping from names to values: the variables of an activation, the fields
/// of a record, the bundle that an object keeps across a wait.
pub type Data = Dict<Field>;

pub enum FieldView {
    Num(Num),
    VRef(ObjectRefView),
    TRef(Object),
    Data(Seq<char>, Seq<(Seq<char>, FieldView)>),
    ObjectSet(Members),
}

pub type DataView = Entries<FieldView>;

/// The views of a dictionary's values, keys and order kept.
pub open spec fn data_view(d: Entries<Field>) -> DataView {
    Seq::new(d.len(), |i: int| (d[i].0, d[i].1@))
}

/// The views of a list of values.
pub open spec fn fields_view(v: Seq<Field>) -> Seq<FieldView> {
    Seq::new(v.len(), |i: int| v[i]@)
}

/// The view of a value: names by their characters, mappings and sets by
/// their entries.
pub open spec fn field_view(f: Field) -> FieldView
    decreases f,
{
    match f {
        Field::Num(x) => FieldView::Num(x),
        Field::VRef(r) => FieldView::VRef(r@),
        Field::TRef(o) => FieldView::TRef(o),
        Field::Data(name, data) => FieldView::Data(
            name@,
            Seq::new(
                data.entries@.len(),
                |i: int|
                    if 0 <= i < data.entries@.len() {
                        (data.entries@[i].0@, field_view(data.entries@[i].1))
                    } else {
                        arbitrary()
                    },
            ),
        ),
        Field::ObjectSet(s) => FieldView::ObjectSet(s@),
    }
}

impl View for Field {
    type V = FieldView;

    open spec fn view(&self) -> FieldView {
        field_view(*self)
    }
}

/// The view of a record is its tag with the views of its fields.
pub broadcast proof fn lemma_record_view(name: String, data: Data)
    ensures
        #[trigger] Field::Data(name, data)@ == FieldView::Data(name@, data_view(data@)),
{
    reveal_with_fuel(field_view, 2);
    let v = Field::Data(name, data)@;
    assert(v is Data);
    assert(v->Data_1.len() == data@.len());
    assert forall|i: int| 0 <= i < data@.len() implies v->Data_1[i] == data_view(data@)[i] by {
        assert(data@[i] == (data.entries@[i].0@, data.entries@[i].1));
    }
    assert(v->Data_1 =~= data_view(data@));
}

/// The record that stands for a truth value.
pub open spec fn bool_view(val: bool) -> FieldView {
    FieldView::Data(
        if val {
            "True"@
        } else {
            "False"@
        },
        Seq::empty(),
    )
}

/// The truth value that a record stands for, if it stands for one.
pub open spec fn view_bool(v: FieldView) -> Option<bool> {
    match v {
        FieldView::Data(name, fields) => if fields.len() != 0 {
            None
        } else if name == "True"@ {
            Some(true)
        } else if name == "False"@ {
            Some(false)
        } else {
            None
        },
        _ => None,
    }
}

/// Whether `s` spells the literal `lit`.
pub fn is_name(s: &String, lit: &str) -> (r: bool)
    ensures
        r == (s@ == lit@),
{
    let t = String::from_str(lit);
    *s == t
}

/// Copies a mapping, entry by entry.
pub fn clone_data(d: &Data) -> (r: Data)
    ensures
        data_view(r@) == data_view(d@),
    decreases d,
{
    let mut r: Data = Dict::new();
    let n = d.entries.len();
    let mut i: usize = 0;
    while i < n
        invariant
            n == d.entries@.len(),
            i <= n,
            r.entries@.len() == i,
            forall|j: int|
                0 <= j < i ==> (#[trigger] r.entries@[j]).0@ == d.entries@[j].0@
                    && r.entries@[j].1@ == d.entries@[j].1@,
        decreases n - i,
    {
        let key = d.entries[i].0.clone();
        let val = d.entries[i].1.clone();
        r.entries.push((key, val));
        i += 1;
    }
    assert(data_view(r@) =~= data_view(d@));
    r
}

impl Clone for Field {
    fn clone(&self) -> (r: Self)
        ensures
            r@ == self@,
        decreases self,
    {
        broadcast use lemma_record_view;

        match self {
            Field::Num(x) => Field::Num(*x),
            Field::VRef(x) => Field::VRef(x.clone()),
            Field::TRef(o) => Field::TRef(*o),
            Field::Data(name, data) => Field::Data(name.clone(), clone_data(data)),
            Field::ObjectSet(s) => Field::ObjectSet(s.clone()),
        }
    }
}

impl Field {
    pub fn from_bool(val: bool) -> (r: Self)
        ensures
            r@ == bool_view(val),
    {
        let name = if val {
            String::from_str("True")
        } else {
            String::from_str("False")
        };
        broadcast use lemma_record_view;

        let r = Field::Data(name, Dict::new());
        assert(data_view(Seq::<(Seq<char>, Field)>::empty()) =~= Seq::empty());
        r
    }

    pub fn num(&self) -> (r: Result<Num, Fault>)
        ensures
            match self@ {
                FieldView::Num(x) => r == Ok::<Num, Fault>(x),
                _ => r == Err::<Num, Fault>(Fault::TypeMismatch),
            },
    {
        match self {
            Field::Num(x) => Ok(*x),
            _ => Err(Fault::TypeMismatch),
        }
    }

    pub fn tref(&self) -> (r: Result<Object, Fault>)
        ensures
            match self@ {
                FieldView::TRef(o) => r == Ok::<Object, Fault>(o),
                _ => r == Err::<Object, Fault>(Fault::TypeMismatch),
            },
    {
        match self {
            Field::TRef(o) => Ok(*o),
            _ => Err(Fault::TypeMismatch),
        }
    }

    pub fn vref(&self) -> (r: Result<&ObjectRef, Fault>)
        ensures
            match self@ {
                FieldView::VRef(x) => r is Ok && r->Ok_0@ == x,
                _ => r == Err::<&ObjectRef, Fault>(Fault::TypeMismatch),
            },
    {
        match self {
            Field::VRef(x) => Ok(x),
            _ => Err(Fault::TypeMismatch),
        }
    }

    pub fn unwrap_tref(self) -> (r: Result<Object, Fault>)
        ensures
            match self@ {
                FieldView::TRef(o) => r == Ok::<Object, Fault>(o),
                _ => r == Err::<Object, Fault>(Fault::TypeMismatch),
            },
    {
        match self {
            Field::TRef(o) => Ok(o),
            _ => Err(Fault::TypeMismatch),
        }
    }

    pub fn unwrap_vref(self) -> (r: Result<ObjectRef, Fault>)
        ensures
            match self@ {
                FieldView::VRef(x) => r is Ok && r->Ok_0@ == x,
                _ => r == Err::<ObjectRef, Fault>(Fault::TypeMismatch),
            },
    {
        match self {
            Field::VRef(x) => Ok(x),
            _ => Err(Fault::TypeMismatch),
        }
    }

    pub fn unwrap_data(self) -> (r: Result<(String, Data), Fault>)
        ensures
            match self@ {
                FieldView::Data(name, fields) => r is Ok && r->Ok_0.0@ == name && data_view(
                    r->Ok_0.1@,
                ) == fields,
                _ => r == Err::<(String, Data), Fault>(Fault::TypeMismatch),
            },
    {
        broadcast use lemma_record_view;

        match self {
            Field::Data(name, data) => Ok((name, data)),
            _ => Err(Fault::TypeMismatch),
        }
    }

    pub fn bool(&self) -> (r: Result<bool, Fault>)
        ensures
            match view_bool(self@) {
                Some(b) => r == Ok::<bool, Fault>(b),
                None => r == Err::<bool, Fault>(Fault::TypeMismatch),
            },
    {
        broadcast use lemma_record_view;

        match self {
            Field::Data(name, data) => {
                if data.len() != 0 {
                    Err(Fault::TypeMismatch)
                } else if is_name(name, "True") {
                    Ok(true)
                } else if is_name(name, "False") {
                    Ok(false)
                } else {
                    Err(Fault::TypeMismatch)
                }
            },
            _ => Err(Fault::TypeMismatch),
        }
    }

    pub fn unwrap_set(self) -> (r: Result<ObjectSet, Fault>)
        ensures
            match self@ {
                FieldView::ObjectSet(s) => r is Ok && r->Ok_0@ == s,
                _ => r == Err::<ObjectSet, Fault>(Fault::TypeMismatch),
            },
    {
        match self {
            Field::ObjectSet(s) => Ok(s),
            _ => Err(Fault::TypeMismatch),
        }
    }

    pub fn set(&self) -> (r: Result<&ObjectSet, Fault>)
        ensures
            match self@ {
                FieldView::ObjectSet(s) => r is Ok && r->Ok_0@ == s,
                _ => r == Err::<&ObjectSet, Fault>(Fault::TypeMismatch),
            },
    {
        match self {
            Field::ObjectSet(s) => Ok(s),
            _ => Err(Fault::TypeMismatch),
        }
    }
}

/// What an object keeps between activations.
#[derive(Debug)]
pub struct ObjectData {
    /// The handle of the pending wake-up, to cancel it by.
    pub event: Option<EventHandle>,
    pub object_type: String,
    /// The tag of the resting state.
    pub state_name: String,
    /// The fields of the resting state, kept across a wait.
    pub data: Data,
    /// Whether the object holds a resting state: it does from the moment it
    /// sets one until it gives it up or is resumed from a wait.
    pub resting: bool,
}

pub struct ObjectDataView {
    pub event: Option<EventHandle>,
    pub object_type: Seq<char>,
    pub state_name: Seq<char>,
    pub data: DataView,
    pub resting: bool,
}

impl View for ObjectData {
    type V = ObjectDataView;

    open spec fn view(&self) -> ObjectDataView {
        ObjectDataView {
            event: self.event,
            object_type: self.object_type@,
            state_name: self.state_name@,
            data: data_view(self.data@),
            resting: self.resting,
        }
    }
}

/// A fresh object of the given type: no wake-up, no fields, the state name
/// `EMPTY`, and no resting state yet.
pub open spec fn fresh_object(object_type: Seq<char>) -> ObjectDataView {
    ObjectDataView {
        event: None,
        object_type,
        state_name: "EMPTY"@,
        data: Seq::empty(),
        resting: false,
    }
}

impl ObjectData {
    pub fn new(object_type: String) -> (r: ObjectData)
        ensures
            r@ == fresh_object(object_type@),
    {
        let r = ObjectData {
            event: None,
            object_type,
            state_name: String::from_str("EMPTY"),
            data: Dict::new(),
            resting: false,
        };
        assert(r@.data =~= Seq::empty());
        r
    }
}

/// A line that an algorithm wrote: a text, or the numbers of a `print`.
#[derive(Debug)]
pub enum Output {
    Text(String),
    Nums(Vec<Num>),
}

pub enum OutputView {
    Text(Seq<char>),
    Nums(Seq<Num>),
}

impl View for Output {
    type V = OutputView;

    open spec fn view(&self) -> OutputView {
        match self {
            Output::Text(text) => OutputView::Text(text@),
            Output::Nums(nums) => OutputView::Nums(nums@),
        }
    }
}

/// The store of an instance: every object, by its place, the queue of their
/// wake-ups, and the lines written so far. Whoever holds the store mutably
/// is the one activation that may change an object.
#[derive(Debug)]
pub struct Totem {
    pub objects: Vec<ObjectData>,
    pub event_queue: EventQueue,
    pub output: Vec<Output>,
}

pub struct TotemView {
    pub objects: Seq<ObjectDataView>,
    pub queue: QueueView,
    pub output: Seq<OutputView>,
}

impl View for Totem {
    type V = TotemView;

    open spec fn view(&self) -> TotemView {
        TotemView {
            objects: Seq::new(self.objects@.len(), |i: int| self.objects@[i]@),
            queue: self.event_queue@,
            output: Seq::new(self.output@.len(), |i: int| self.output@[i]@),
        }
    }
}

impl TotemView {
    pub open spec fn wf(self) -> bool {
        self.queue.wf()
    }

    /// Whether `object` is an object of the store.
    pub open spec fn has(self, object: Object) -> bool {
        object < self.objects.len()
    }

    /// The store with a fresh object of the given type at its end.
    pub open spec fn with_fresh(self, object_type: Seq<char>) -> TotemView {
        TotemView { objects: self.objects.push(fresh_object(object_type)), ..self }
    }

    /// The store with `line` at the end of the output.
    pub open spec fn emit(self, line: OutputView) -> TotemView {
        TotemView { output: self.output.push(line), ..self }
    }

    /// The store after the pending wake-up of `object`, if it has one, was
    /// cancelled and its handle dropped.
    pub open spec fn cancel_pending(self, object: Object) -> TotemView {
        match self.objects[object as int].event {
            Some(handle) => TotemView {
                objects: self.objects.update(
                    object as int,
                    ObjectDataView { event: None, ..self.objects[object as int] },
                ),
                queue: self.queue.cancel(handle.0, handle.1),
                output: self.output,
            },
            None => self,
        }
    }

    /// The store after `object` took the resting state `name` with the
    /// fields `data`: a pending wake-up is cancelled.
    pub open spec fn set_state(self, object: Object, name: Seq<char>, data: DataView)
        -> TotemView {
        let t = self.cancel_pending(object);
        TotemView {
            objects: t.objects.update(
                object as int,
                ObjectDataView {
                    state_name: name,
                    data,
                    resting: true,
                    ..t.objects[object as int]
                },
            ),
            ..t
        }
    }

    /// The store after `object` gave up its resting state: a pending wake-up
    /// is cancelled and the bundle cleared.
    pub open spec fn clear_state(self, object: Object) -> TotemView {
        let t = self.cancel_pending(object);
        TotemView {
            objects: t.objects.update(
                object as int,
                ObjectDataView { data: Seq::empty(), resting: false, ..t.objects[object as int] },
            ),
            ..t
        }
    }

    /// The store after the bundle of `object` was taken out to be the
    /// variables of the activation that resumes it: the bundle is empty and
    /// the handle of the wake-up that fired is dropped.
    pub open spec fn take_data(self, object: Object) -> TotemView {
        TotemView {
            objects: self.objects.update(
                object as int,
                ObjectDataView {
                    event: None,
                    data: Seq::empty(),
                    resting: false,
                    ..self.objects[object as int]
                },
            ),
            ..self
        }
    }

    /// The store after a wake-up for `object` was put in for `time`, to go
    /// on in `action_name` at `pc`: a wake-up that was pending before is
    /// cancelled first, and the object keeps the handle of the new one.
    pub open spec fn schedule(self, object: Object, action_name: Seq<char>, pc: usize, time: Time)
        -> TotemView {
        let t = self.cancel_pending(object);
        let due = if time.key < t.queue.now.key {
            t.queue.now
        } else {
            time
        };
        TotemView {
            objects: t.objects.update(
                object as int,
                ObjectDataView {
                    event: Some(EventHandle(due, t.queue.next_id)),
                    ..t.objects[object as int]
                },
            ),
            queue: t.queue.enqueue(EventView { object, action_name, pc }, time),
            output: t.output,
        }
    }
}

impl Totem {
    /// An empty store whose clock stands at `now`.
    pub fn new(now: Time) -> (r: Totem)
        ensures
            r@ == (TotemView {
                objects: Seq::empty(),
                queue: QueueView { now, next_id: 0, pending: Seq::empty() },
                output: Seq::empty(),
            }),
            r@.wf(),
    {
        let r = Totem { objects: Vec::new(), event_queue: EventQueue::new(now), output: Vec::new() };
        assert(r@.objects =~= Seq::empty());
        assert(r@.output =~= Seq::empty());
        r
    }

    pub fn has(&self, object: Object) -> (r: bool)
        ensures
            r == self@.has(object),
    {
        object < self.objects.len()
    }

    /// Writes `line` to the output.
    pub fn emit(&mut self, line: Output)
        ensures
            final(self)@ == old(self)@.emit(line@),
    {
        let ghost before = self@;
        self.output.push(line);
        assert(self@.output =~= before.output.push(line@));
        assert(self@.objects =~= before.objects);
    }

    /// The type of `object`.
    pub fn type_of(&self, object: Object) -> (r: &String)
        requires
            self@.has(object),
        ensures
            r@ == self@.objects[object as int].object_type,
    {
        &self.objects[object].object_type
    }

    /// Cancels the pending wake-up of `object`, if it has one.
    pub fn cancel_pending(&mut self, object: Object)
        requires
            old(self)@.wf(),
            old(self)@.has(object),
        ensures
            final(self)@ == old(self)@.cancel_pending(object),
            final(self)@.wf(),
            final(self)@.objects.len() == old(self)@.objects.len(),
    {
        let ghost before = self@;
        match self.objects[object].event {
            Some(handle) => {
                let _ = self.event_queue.cancel_event(handle.0, handle.1);
                self.objects[object].event = None;
                assert(self@.objects =~= before.cancel_pending(object).objects);
                assert(self@.output =~= before.output);
            },
            None => {},
        }
    }

    /// Makes `name` with the fields `data` the resting state of `object`.
    pub fn set_state(&mut self, object: Object, name: String, data: Data)
        requires
            old(self)@.wf(),
            old(self)@.has(object),
        ensures
            final(self)@ == old(self)@.set_state(object, name@, data_view(data@)),
            final(self)@.wf(),
            final(self)@.objects.len() == old(self)@.objects.len(),
    {
        self.cancel_pending(object);
        let ghost mid = self@;
        self.objects[object].state_name = name;
        self.objects[object].data = data;
        self.objects[object].resting = true;
        assert(self@.objects =~= mid.objects.update(
            object as int,
            ObjectDataView {
                state_name: name@,
                data: data_view(data@),
                resting: true,
                ..mid.objects[object as int]
            },
        ));
        assert(self@.output =~= mid.output);
    }

    /// Cancels the pending wake-up of `object` and clears its bundle.
    pub fn clear_state(&mut self, object: Object)
        requires
            old(self)@.wf(),
            old(self)@.has(object),
        ensures
            final(self)@ == old(self)@.clear_state(object),
            final(self)@.wf(),
            final(self)@.objects.len() == old(self)@.objects.len(),
    {
        self.cancel_pending(object);
        let ghost mid = self@;
        self.objects[object].data = Dict::new();
        self.objects[object].resting = false;
        assert(data_view(Seq::<(Seq<char>, Field)>::empty()) =~= Seq::empty());
        assert(self@.objects =~= mid.objects.update(
            object as int,
            ObjectDataView { data: Seq::empty(), resting: false, ..mid.objects[object as int] },
        ));
        assert(self@.output =~= mid.output);
    }

    /// Takes the bundle of `object` out and drops the handle of its wake-up.
    pub fn take_data(&mut self, object: Object) -> (r: Data)
        requires
            old(self)@.has(object),
        ensures
            final(self)@ == old(self)@.take_data(object),
            data_view(r@) == old(self)@.objects[object as int].data,
    {
        let ghost before = self@;
        let mut r: Data = Dict::new();
        std::mem::swap(&mut self.objects[object].data, &mut r);
        self.objects[object].event = None;
        self.objects[object].resting = false;
        assert(data_view(Seq::<(Seq<char>, Field)>::empty()) =~= Seq::empty());
        assert(self@.objects =~= before.take_data(object).objects);
        assert(self@.output =~= before.output);
        r
    }

    /// Puts a wake-up for `object` in for `time`, to go on in `action_name`
    /// at `pc`, after cancelling the one that was pending. Fails when the
    /// queue has no identifier left; the earlier wake-up is then cancelled
    /// all the same.
    pub fn schedule(&mut self, object: Object, action_name: String, pc: usize, time: Time) -> (r:
        Result<(), Fault>)
        requires
            old(self)@.wf(),
            old(self)@.has(object),
        ensures
            match r {
                Ok(_) => old(self)@.queue.next_id < usize::MAX && final(self)@ == old(
                    self,
                )@.schedule(object, action_name@, pc, time),
                Err(e) => e == Fault::LimitReached && old(self)@.queue.next_id == usize::MAX
                    && final(self)@ == old(self)@.cancel_pending(object),
            },
            final(self)@.wf(),
            final(self)@.objects.len() == old(self)@.objects.len(),
    {
        self.cancel_pending(object);
        let ghost mid = self@;
        let now = self.event_queue.now();
        let due = if time.key < now.key {
            now
        } else {
            time
        };
        match self.event_queue.enqueue_absolute(Event { object, action_name, pc }, time) {
            Ok(id) => {
                self.objects[object].event = Some(EventHandle(due, id));
                assert(self@.objects =~= mid.objects.update(
                    object as int,
                    ObjectDataView {
                        event: Some(EventHandle(due, mid.queue.next_id)),
                        ..mid.objects[object as int]
                    },
                ));
                assert(self@.output =~= mid.output);
                Ok(())
            },
            Err(e) => Err(e),
        }
    }
}

/// Puts `val` into the store and returns the handle by which every holder
/// shares it.
pub fn strong(totem: &mut Totem, val: ObjectData) -> (r: Object)
    ensures
        r == old(totem)@.objects.len(),
        final(totem)@ == (TotemView {
            objects: old(totem)@.objects.push(val@),
            ..old(totem)@
        }),
{
    let ghost before = totem@;
    let r = totem.objects.len();
    totem.objects.push(val);
    assert(totem@.objects =~= before.objects.push(val@));
    assert(totem@.output =~= before.output);
    r
}

pub open spec fn field_viewer() -> spec_fn(Field) -> FieldView {
    |f: Field| f@
}

/// Finding, getting, inserting and removing in a mapping go through its
/// view unchanged.
pub proof fn lemma_data_view(d: Entries<Field>, key: Seq<char>)
    ensures
        data_view(d).len() == d.len(),
        dict_find(data_view(d), key) == dict_find(d, key),
        dict_get(data_view(d), key) == match dict_get(d, key) {
            Some(v) => Some(v@),
            None => None,
        },
        data_view(dict_remove(d, key)) == dict_remove(data_view(d), key),
        forall|val: Field| #[trigger]
            data_view(dict_insert(d, key, val)) == dict_insert(data_view(d), key, val@),
{
    lemma_entries_map(d, field_viewer(), key);
    assert(data_view(d) =~= entries_map(d, field_viewer()));
    assert(data_view(dict_remove(d, key)) =~= entries_map(dict_remove(d, key), field_viewer()));
    assert forall|val: Field| #[trigger]
        data_view(dict_insert(d, key, val)) == dict_insert(data_view(d), key, val@) by {
        assert(data_view(dict_insert(d, key, val)) =~= entries_map(
            dict_insert(d, key, val),
            field_viewer(),
        ));
    }
}

pub proof fn lemma_fields_view_add(a: Seq<Field>, b: Seq<Field>)
    ensures
        fields_view(a + b) == fields_view(a) + fields_view(b),
{
    assert(fields_view(a + b) =~= fields_view(a) + fields_view(b));
}

pub proof fn lemma_fields_view_push(a: Seq<Field>, x: Field)
    ensures
        fields_view(a.push(x)) == fields_view(a).push(x@),
        fields_view(seq![x]) == seq![x@],
        fields_view(Seq::<Field>::empty()) == Seq::<FieldView>::empty(),
{
    assert(fields_view(a.push(x)) =~= fields_view(a).push(x@));
    assert(fields_view(seq![x]) =~= seq![x@]);
    assert(fields_view(Seq::<Field>::empty()) =~= Seq::<FieldView>::empty());
}

/// The mapping that the first `n` entries of `names` pick out of `vals`:
/// each new name bound to the value that the old name has. An old name
/// without a value is a `KeyError`.
pub open spec fn extracted(vals: DataView, names: Entries<String>, n: int) -> Result<
    DataView,
    Fault,
>
    decreases n,
{
    if n <= 0 {
        Ok(Seq::empty())
    } else {
        match extracted(vals, names, n - 1) {
            Err(f) => Err(f),
            Ok(acc) => match dict_get(vals, names[n - 1].1@) {
                None => Err(Fault::KeyError),
                Some(v) => Ok(dict_insert(acc, names[n - 1].0, v)),
            },
        }
    }
}

/// Picks values out of `vals` under new names: for each entry of `names`,
/// the value of the old name under the new one.
pub fn extract(vals: &Data, names: &Dict<String>) -> (r: Result<Data, Fault>)
    ensures
        match r {
            Ok(d) => extracted(data_view(vals@), names@, names@.len() as int) == Ok::<
                DataView,
                Fault,
            >(data_view(d@)),
            Err(f) => extracted(data_view(vals@), names@, names@.len() as int) == Err::<
                DataView,
                Fault,
            >(f),
        },
{
    let mut result: Data = Dict::new();
    let n = names.len();
    let mut i: usize = 0;
    assert(data_view(result@) =~= Seq::empty());
    while i < n
        invariant
            n == names@.len(),
            i <= n,
            extracted(data_view(vals@), names@, i as int) == Ok::<DataView, Fault>(
                data_view(result@),
            ),
        decreases n - i,
    {
        let (new, old) = names.entry(i);
        proof {
            lemma_data_view(vals@, old@);
            lemma_data_view(result@, new@);
        }
        match vals.get(old) {
            None => {
                proof {
                    lemma_extracted_fails(data_view(vals@), names@, i as int + 1, n as int);
                }
                return Err(Fault::KeyError);
            },
            Some(v) => {
                let _ = result.insert(new.clone(), v.clone());
            },
        }
        i += 1;
    }
    Ok(result)
}

/// Once an old name is missing, what follows does not mend it.
proof fn lemma_extracted_fails(vals: DataView, names: Entries<String>, i: int, n: int)
    requires
        0 <= i <= n,
        extracted(vals, names, i) is Err,
    ensures
        extracted(vals, names, n) == extracted(vals, names, i),
    decreases n - i,
{
    if i < n {
        lemma_extracted_fails(vals, names, i, n - 1);
    }
}

} // verus!
