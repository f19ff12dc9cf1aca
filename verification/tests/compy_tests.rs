use compy::compy::{borrows_conflict, Compy};
use compy::compy_builder::CompyBuilder;
use compy::key::Key;
use std::any::TypeId;
use std::cell::RefCell;

#[allow(dead_code)]
struct Health {
    current: u8,
    max: u8,
}
struct Tag;
#[allow(dead_code)]
struct Pos(u32);
struct Unused;

fn build() -> Compy {
    CompyBuilder::new().with::<Health>().with::<Tag>().with::<Pos>().build()
}

fn health(current: u8) -> (TypeId, Vec<u8>) {
    (TypeId::of::<Health>(), vec![current, 10])
}

fn tag() -> (TypeId, Vec<u8>) {
    (TypeId::of::<Tag>(), vec![])
}

fn pos(x: u8) -> (TypeId, Vec<u8>) {
    (TypeId::of::<Pos>(), vec![x, 0, 0, 0])
}

#[test]
fn registered_types_get_keys() {
    let compy = build();
    let h = compy.get_key_for::<Health>().unwrap();
    let t = compy.get_key_for::<Tag>().unwrap();
    let p = compy.get_key_for::<Pos>().unwrap();
    assert!(compy.get_key_for::<Unused>().is_none());
    assert!(h.excludes(t) && h.excludes(p) && t.excludes(p));
    assert_eq!(compy.get_key(&[TypeId::of::<Health>(), TypeId::of::<Pos>()]), h + p);
    assert_eq!(compy.get_key(&[]), Key::default());
    assert_eq!(compy.key_for_type_id(&TypeId::of::<Tag>()), t);
    assert!(compy.is_registered(&TypeId::of::<Tag>()));
}

#[test]
fn inserts_wait_for_insert_all() {
    let mut compy = build();
    compy.insert(&vec![health(1), tag()]);
    compy.insert(&vec![health(2), pos(7)]);
    compy.insert(&vec![tag(), health(3)]);
    assert_eq!(compy.entity_count(), 0);
    compy.insert_all();
    assert_eq!(compy.entity_count(), 3);
    // two archetypes: (health, tag) and (health, pos)
    assert_eq!(compy.stats(), (2, 3, 3));
    compy.insert_all();
    assert_eq!(compy.entity_count(), 3);
}

#[test]
fn buckets_are_found_by_key() {
    let mut compy = build();
    let h = compy.get_key_for::<Health>().unwrap();
    let t = compy.get_key_for::<Tag>().unwrap();
    assert_eq!(compy.find_bucket(h + t), None);
    compy.insert(&vec![tag(), health(1)]);
    assert_eq!(compy.find_bucket(h + t), Some(0));
    assert_eq!(compy.find_bucket(h), None);
}

#[test]
fn iterate_visits_matching_buckets_only() {
    let mut compy = build();
    compy.insert(&vec![health(1), tag()]);
    compy.insert(&vec![health(0), pos(7)]);
    compy.insert(&vec![health(5), pos(8)]);
    compy.insert_all();
    let h = compy.get_key_for::<Health>().unwrap();
    let t = compy.get_key_for::<Tag>().unwrap();
    let p = compy.get_key_for::<Pos>().unwrap();
    let args = vec![TypeId::of::<Health>()];
    assert!(compy.iterable(h, t, &args));
    let seen = RefCell::new(Vec::new());
    let sets = compy.iterate_mut(h, t, &args, 1, |a: Vec<Vec<u8>>| {
        seen.borrow_mut().push(a[0][0]);
        let zero = a[0][0] == 0;
        (a, vec![zero])
    });
    assert_eq!(seen.into_inner(), vec![0, 5]);
    assert_eq!(sets.len(), 1);
    assert_eq!(sets[0].get(h + p), Some(&vec![0u32]));
    assert_eq!(sets[0].get(h + t), None);
    // no negative key: every bucket with health is visited
    let sets = compy.iterate_mut(h, Key::default(), &args, 2, |a: Vec<Vec<u8>>| {
        (a, vec![true, false])
    });
    assert_eq!(sets[0].get(h + t), Some(&vec![0u32]));
    assert_eq!(sets[0].get(h + p), Some(&vec![0u32, 1]));
    assert_eq!(sets[1].get(h + p), Some(&Vec::<u32>::new()));
}

#[test]
fn iterate_writes_components_back() {
    let mut compy = build();
    compy.insert(&vec![health(3), pos(1)]);
    compy.insert_all();
    let h = compy.get_key_for::<Health>().unwrap();
    let args = vec![TypeId::of::<Health>(), TypeId::of::<Pos>()];
    compy.iterate_mut(h, Key::default(), &args, 0, |a: Vec<Vec<u8>>| {
        (vec![vec![a[0][0] - 1, a[0][1]], vec![9, 9, 9, 9]], vec![])
    });
    let seen = RefCell::new(Vec::new());
    compy.iterate_mut(h, Key::default(), &args, 0, |a: Vec<Vec<u8>>| {
        seen.borrow_mut().push(a.clone());
        (a, vec![])
    });
    assert_eq!(seen.into_inner(), vec![vec![vec![2, 10], vec![9, 9, 9, 9]]]);
}

#[test]
fn iterable_needs_registered_types_with_data() {
    let mut compy = build();
    compy.insert(&vec![health(1), tag()]);
    compy.insert_all();
    let h = compy.get_key_for::<Health>().unwrap();
    assert!(!compy.iterable(h, Key::default(), &vec![TypeId::of::<Unused>()]));
    // a tag has no data to hand out
    assert!(!compy.iterable(h, Key::default(), &vec![TypeId::of::<Tag>()]));
    // a closure with no arguments is fine
    assert!(compy.iterable(h, Key::default(), &vec![]));
}

#[test]
fn inserted_entity_is_stored_last_in_its_bucket() {
    let mut compy = build();
    compy.insert(&vec![health(1), pos(1)]);
    compy.insert_all();
    compy.insert(&vec![pos(2), health(2), pos(3)]);
    assert_eq!(compy.entity_count(), 1);
    compy.insert_all();
    assert_eq!(compy.entity_count(), 2);
    let h = compy.get_key_for::<Health>().unwrap();
    let args = vec![TypeId::of::<Health>(), TypeId::of::<Pos>()];
    let seen = RefCell::new(Vec::new());
    compy.iterate_mut(h, Key::default(), &args, 0, |a: Vec<Vec<u8>>| {
        seen.borrow_mut().push(a.clone());
        (a, vec![])
    });
    let seen = seen.into_inner();
    // the last component given for a type is the one stored
    assert_eq!(seen[1], vec![vec![2, 10], vec![3, 0, 0, 0]]);
    assert_eq!(seen[0], vec![vec![1, 10], vec![1, 0, 0, 0]]);
}

#[test]
fn sizes_and_keys_of_type_ids() {
    let compy = build();
    assert_eq!(compy.size_for_type_id(&TypeId::of::<Health>()), Some(2));
    assert_eq!(compy.size_for_type_id(&TypeId::of::<Tag>()), Some(0));
    assert_eq!(compy.size_for_type_id(&TypeId::of::<Pos>()), Some(4));
    assert_eq!(compy.size_for_type_id(&TypeId::of::<Unused>()), None);
    assert!(!compy.is_registered(&TypeId::of::<Unused>()));
}

#[test]
fn builder_gives_consecutive_bits_from_the_second() {
    let compy = CompyBuilder::new().with::<Health>().with::<Tag>().build();
    let h = compy.get_key_for::<Health>().unwrap();
    let t = compy.get_key_for::<Tag>().unwrap();
    let ids = (h + t).for_each_comp_id(|id| Key::from(id));
    // the counter starts at bit 0 and moves before each registration
    assert_eq!(ids, vec![h, t]);
    let first = compy::key::CompId::default();
    assert_eq!(Key::from(first.inc()), h);
    assert_eq!(Key::from(first.inc().inc()), t);
}

#[test]
fn registering_a_type_again_gives_it_a_new_id() {
    let compy = CompyBuilder::new().with::<Health>().with::<Health>().build();
    let h = compy.get_key_for::<Health>().unwrap();
    let first = compy::key::CompId::default();
    assert_eq!(h, Key::from(first.inc().inc()));
}

#[test]
fn fresh_store_has_no_entity() {
    let compy = CompyBuilder::new().build();
    assert_eq!(compy.entity_count(), 0);
    assert_eq!(compy.stats(), (0, 0, 0));
    let compy = build();
    assert_eq!(compy.entity_count(), 0);
}

#[test]
fn borrow_conflicts() {
    let (h, p) = (TypeId::of::<Health>(), TypeId::of::<Pos>());
    assert!(!borrows_conflict(&vec![h, p], &vec![true, true]));
    assert!(!borrows_conflict(&vec![h, h], &vec![false, false]));
    assert!(borrows_conflict(&vec![h, h], &vec![false, true]));
    assert!(borrows_conflict(&vec![p, h, h], &vec![false, true, false]));
    assert!(!borrows_conflict(&vec![], &vec![]));
}
