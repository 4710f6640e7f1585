use flop::data::{
    clone_data, extract, set_pop, strong, Field, Num, ObjectData, ObjectKey, ObjectRef, ObjectSet,
    Totem,
};
use flop::event::{Event, EventQueue, Time};
use flop::prelude::{Dict, Fault};

fn s(text: &str) -> String {
    text.to_string()
}

fn num(x: f64) -> Field {
    Field::Num(Num { bits: x.to_bits() })
}

fn handle(table: &str, data: usize) -> ObjectRef {
    ObjectRef { table: s(table), data }
}

fn ids(set: &ObjectSet) -> Vec<(String, usize)> {
    set.members.iter().map(|m| (m.table.clone(), m.data)).collect()
}

#[test]
fn set_add_is_idempotent() {
    let mut set = ObjectSet::new();
    assert!(set.is_empty());
    set.insert(handle("A", 3));
    set.insert(handle("A", 3));
    assert_eq!(ids(&set), vec![(s("A"), 3)]);
    assert_eq!(set.len(), 1);
}

#[test]
fn set_membership_is_by_object_not_by_table() {
    let mut set = ObjectSet::new();
    set.insert(handle("A", 3));
    set.insert(handle("B", 3));
    set.insert(handle("A", 4));
    assert_eq!(ids(&set), vec![(s("A"), 3), (s("A"), 4)]);
    assert!(set.contains(3) && set.contains(4) && !set.contains(5));
    assert_eq!(set.position(4), Some(1));
    assert_eq!(set.member(1).table, "A");
    assert_eq!(ObjectKey(handle("Z", 9)).as_usize(), 9);
}

#[test]
fn set_remove_of_an_absent_member_changes_nothing() {
    let mut set = ObjectSet::new();
    set.insert(handle("A", 1));
    set.insert(handle("A", 2));
    set.remove(7);
    assert_eq!(ids(&set), vec![(s("A"), 1), (s("A"), 2)]);
    set.remove(1);
    assert_eq!(ids(&set), vec![(s("A"), 2)]);
    set.remove(1);
    assert_eq!(ids(&set), vec![(s("A"), 2)]);
}

#[test]
fn set_pop_takes_one_member_out() {
    let mut set = ObjectSet::new();
    assert!(set_pop(&mut set).is_none());
    set.insert(handle("A", 1));
    set.insert(handle("B", 2));
    let got = set_pop(&mut set).expect("a member");
    assert_eq!((got.table.as_str(), got.data), ("B", 2));
    assert_eq!(ids(&set), vec![(s("A"), 1)]);
    let copy = set.clone();
    assert_eq!(ids(&copy), ids(&set));
}

#[test]
fn accessors_fail_on_the_wrong_variant() {
    let n = num(2.5);
    assert_eq!(n.num().map(|x| f64::from_bits(x.bits)), Ok(2.5));
    assert_eq!(n.tref(), Err(Fault::TypeMismatch));
    assert!(matches!(n.vref(), Err(Fault::TypeMismatch)));
    assert_eq!(n.bool(), Err(Fault::TypeMismatch));
    assert!(matches!(n.set(), Err(Fault::TypeMismatch)));
    assert!(matches!(num(1.0).unwrap_data(), Err(Fault::TypeMismatch)));
    assert!(matches!(num(1.0).unwrap_set(), Err(Fault::TypeMismatch)));
    assert!(matches!(num(1.0).unwrap_vref(), Err(Fault::TypeMismatch)));
    assert_eq!(num(1.0).unwrap_tref(), Err(Fault::TypeMismatch));

    let t = Field::TRef(4);
    assert_eq!(t.tref(), Ok(4));
    assert_eq!(t.num(), Err(Fault::TypeMismatch));
    assert_eq!(Field::TRef(4).unwrap_tref(), Ok(4));

    let v = Field::VRef(handle("A", 2));
    assert_eq!(v.vref().map(|r| r.data), Ok(2));
    assert_eq!(Field::VRef(handle("A", 2)).unwrap_vref().map(|r| r.table), Ok(s("A")));

    let set = Field::ObjectSet(ObjectSet::new());
    assert_eq!(set.set().map(|x| x.len()), Ok(0));
    assert_eq!(Field::ObjectSet(ObjectSet::new()).unwrap_set().map(|x| x.len()), Ok(0));
}

#[test]
fn booleans_are_records_without_fields() {
    assert_eq!(Field::from_bool(true).bool(), Ok(true));
    assert_eq!(Field::from_bool(false).bool(), Ok(false));
    assert!(matches!(Field::from_bool(true), Field::Data(name, fields) if name == "True" && fields.len() == 0));
    assert_eq!(Field::Data(s("Maybe"), Dict::new()).bool(), Err(Fault::TypeMismatch));
    let mut fields = Dict::new();
    fields.insert(s("x"), num(1.0));
    assert_eq!(Field::Data(s("True"), fields).bool(), Err(Fault::TypeMismatch));
    let (tag, fields) = Field::from_bool(false).unwrap_data().expect("a record");
    assert_eq!((tag.as_str(), fields.len()), ("False", 0));
}

#[test]
fn clone_copies_nested_values() {
    let mut inner = Dict::new();
    inner.insert(s("n"), num(1.0));
    let mut set = ObjectSet::new();
    set.insert(handle("A", 1));
    inner.insert(s("s"), Field::ObjectSet(set));
    let mut outer = Dict::new();
    outer.insert(s("r"), Field::Data(s("R"), inner));
    let copy = clone_data(&outer);
    assert_eq!(format!("{:?}", copy), format!("{:?}", outer));
    assert_eq!(format!("{:?}", outer.entries[0].1.clone()), format!("{:?}", outer.entries[0].1));
}

#[test]
fn dict_keeps_first_order_and_replaces_in_place() {
    let mut d: Dict<u32> = Dict::new();
    assert_eq!(d.insert(s("a"), 1), None);
    assert_eq!(d.insert(s("b"), 2), None);
    assert_eq!(d.insert(s("a"), 3), Some(1));
    assert_eq!(d.len(), 2);
    assert_eq!(d.entries, vec![(s("a"), 3), (s("b"), 2)]);
    assert_eq!(d.get(&s("b")), Some(&2));
    assert_eq!(d.get(&s("c")), None);
    assert_eq!(d.position(&s("b")), Some(1));
    assert!(d.contains_key(&s("a")) && !d.contains_key(&s("z")));
    assert_eq!(d.entry(0), (&s("a"), &3));
    assert_eq!(d.remove(&s("a")), Some(3));
    assert_eq!(d.remove(&s("a")), None);
    assert_eq!(d.entries, vec![(s("b"), 2)]);
}

#[test]
fn extract_renames_values() {
    let mut vals = Dict::new();
    vals.insert(s("x"), num(1.0));
    vals.insert(s("y"), num(2.0));
    let mut names = Dict::new();
    names.insert(s("new_y"), s("y"));
    names.insert(s("also_y"), s("y"));
    names.insert(s("new_x"), s("x"));
    let got = extract(&vals, &names).expect("all there");
    let flat: Vec<(String, f64)> = got
        .entries
        .iter()
        .map(|(k, v)| (k.clone(), f64::from_bits(v.num().unwrap().bits)))
        .collect();
    assert_eq!(flat, vec![(s("new_y"), 2.0), (s("also_y"), 2.0), (s("new_x"), 1.0)]);
    names.insert(s("gone"), s("z"));
    assert_eq!(extract(&vals, &names).err(), Some(Fault::KeyError));
}

#[test]
fn fresh_objects_are_empty() {
    let o = ObjectData::new(s("Dog"));
    assert_eq!(o.object_type, "Dog");
    assert_eq!(o.state_name, "EMPTY");
    assert!(o.event.is_none() && o.data.len() == 0 && !o.resting);
    let mut totem = Totem::new(Time { key: 5 });
    assert_eq!(strong(&mut totem, o), 0);
    assert_eq!(strong(&mut totem, ObjectData::new(s("Cat"))), 1);
    assert!(totem.has(1) && !totem.has(2));
    assert_eq!(totem.type_of(1), "Cat");
}

fn event(object: usize) -> Event {
    Event { object, action_name: s("act"), pc: object }
}

fn order(q: &EventQueue) -> Vec<(u64, usize, usize)> {
    q.pending.iter().map(|p| (p.time.key, p.id, p.event.object)).collect()
}

#[test]
fn queue_orders_by_time_then_by_insertion() {
    let mut q = EventQueue::new(Time { key: 10 });
    assert!(q.is_empty());
    assert_eq!(q.enqueue_absolute(event(0), Time { key: 30 }), Ok(0));
    assert_eq!(q.enqueue_absolute(event(1), Time { key: 20 }), Ok(1));
    assert_eq!(q.enqueue_absolute(event(2), Time { key: 30 }), Ok(2));
    assert_eq!(q.enqueue_absolute(event(3), Time { key: 20 }), Ok(3));
    assert_eq!(q.enqueue_absolute(event(4), Time { key: 40 }), Ok(4));
    assert_eq!(order(&q), vec![(20, 1, 1), (20, 3, 3), (30, 0, 0), (30, 2, 2), (40, 4, 4)]);
    assert_eq!(q.len(), 5);
    assert_eq!(q.now(), Time { key: 10 });
    let fired: Vec<usize> = (0..5).map(|_| q.pop().expect("pending").object).collect();
    assert_eq!(fired, vec![1, 3, 0, 2, 4]);
    assert_eq!(q.now(), Time { key: 40 });
    assert!(q.pop().is_none());
    assert_eq!(q.now(), Time { key: 40 });
}

#[test]
fn queue_cancels_by_time_and_id() {
    let mut q = EventQueue::new(Time { key: 0 });
    let a = q.enqueue_absolute(event(0), Time { key: 5 }).unwrap();
    let b = q.enqueue_absolute(event(1), Time { key: 5 }).unwrap();
    assert!(!q.cancel_event(Time { key: 6 }, a));
    assert!(!q.cancel_event(Time { key: 5 }, 17));
    assert_eq!(q.len(), 2);
    assert!(q.cancel_event(Time { key: 5 }, a));
    assert!(!q.cancel_event(Time { key: 5 }, a));
    assert_eq!(order(&q), vec![(5, b, 1)]);
    assert_eq!(q.enqueue_absolute(event(2), Time { key: 1 }), Ok(2));
    assert_eq!(q.pop().map(|e| e.object), Some(2));
    assert_eq!(q.pop().map(|e| e.object), Some(1));
}

#[test]
fn queue_puts_past_times_at_now() {
    let mut q = EventQueue::new(Time { key: 10 });
    q.enqueue_absolute(event(0), Time { key: 3 }).unwrap();
    q.enqueue_absolute(event(1), Time { key: 10 }).unwrap();
    assert_eq!(order(&q), vec![(10, 0, 0), (10, 1, 1)]);
    q.pop();
    assert_eq!(q.now(), Time { key: 10 });
}

#[test]
fn queue_runs_out_of_identifiers() {
    let mut q = EventQueue::new(Time { key: 0 });
    q.next_id = usize::MAX;
    assert_eq!(q.enqueue_absolute(event(0), Time { key: 1 }), Err(Fault::LimitReached));
    assert!(q.is_empty());
}

#[test]
fn store_schedules_one_wake_up_per_object() {
    let mut totem = Totem::new(Time { key: 0 });
    let a = strong(&mut totem, ObjectData::new(s("A")));
    assert_eq!(totem.schedule(a, s("act"), 3, Time { key: 7 }), Ok(()));
    assert_eq!(totem.schedule(a, s("act"), 4, Time { key: 5 }), Ok(()));
    assert_eq!(order(&totem.event_queue), vec![(5, 1, a)]);
    assert_eq!(totem.event_queue.pending[0].event.pc, 4);
    let h = totem.objects[a].event.expect("handle");
    assert_eq!((h.0.key, h.1), (5, 1));
    let mut data = Dict::new();
    data.insert(s("k"), num(1.0));
    totem.set_state(a, s("S"), data);
    assert!(totem.event_queue.is_empty() && totem.objects[a].event.is_none());
    assert!(totem.objects[a].resting);
    assert_eq!(totem.take_data(a).len(), 1);
    assert!(!totem.objects[a].resting && totem.objects[a].data.len() == 0);
    totem.schedule(a, s("act"), 1, Time { key: 9 }).unwrap();
    totem.clear_state(a);
    assert!(totem.event_queue.is_empty() && !totem.objects[a].resting);
    totem.cancel_pending(a);
    assert!(totem.event_queue.is_empty());
}
