use compy::bucket::Bucket;
use compy::key::{CompId, Key};
use std::cell::RefCell;

fn three_ids() -> (CompId, CompId, CompId) {
    let a = CompId::default();
    let b = a.inc();
    let t = b.inc();
    (a, b, t)
}

fn table() -> Vec<(CompId, usize)> {
    let (a, b, t) = three_ids();
    vec![(a, 4), (b, 1), (t, 0)]
}

fn entity(k: u8) -> Vec<(CompId, Vec<u8>)> {
    let (a, b, t) = three_ids();
    vec![(a, vec![k, 0, 0, 0]), (b, vec![k + 100]), (t, vec![])]
}

fn contents(bucket: &mut Bucket) -> Vec<Vec<Vec<u8>>> {
    let seen = RefCell::new(Vec::new());
    bucket.iterate(&vec![0, 1], 0, &|args: Vec<Vec<u8>>| {
        seen.borrow_mut().push(args.clone());
        (args, vec![])
    });
    seen.into_inner()
}

#[test]
fn new_bucket_has_a_column_per_sized_component() {
    let (a, b, t) = three_ids();
    let bucket = Bucket::new(a + b + t, &table());
    assert_eq!(bucket.get_len(), 0);
    assert_eq!(bucket.get_component_count(), 2);
    let tag_only = Bucket::new(Key::from(t), &table());
    assert_eq!(tag_only.get_component_count(), 0);
    let (c, d) = (bucket.column_of(a), bucket.column_of(b));
    assert_eq!((c, d), (Some(0), Some(1)));
    assert_eq!(bucket.column_of(t), None);
}

#[test]
fn queued_entities_appear_after_insert_pending() {
    let (a, b, t) = three_ids();
    let mut bucket = Bucket::new(a + b + t, &table());
    bucket.queue_entity_insert(&entity(1));
    bucket.queue_entity_insert(&entity(2));
    assert_eq!(bucket.get_len(), 0);
    bucket.insert_pending_entities();
    assert_eq!(bucket.get_len(), 2);
    assert_eq!(
        contents(&mut bucket),
        vec![vec![vec![1, 0, 0, 0], vec![101]], vec![vec![2, 0, 0, 0], vec![102]]]
    );
    // draining an empty queue changes nothing
    bucket.insert_pending_entities();
    assert_eq!(bucket.get_len(), 2);
}

#[test]
fn last_component_of_an_id_wins() {
    let (a, b, t) = three_ids();
    let mut bucket = Bucket::new(a + b, &table());
    let mut data = entity(1);
    data.push((a, vec![9, 9, 9, 9]));
    data.retain(|(id, _)| *id != t);
    bucket.queue_entity_insert(&data);
    bucket.insert_pending_entities();
    assert_eq!(contents(&mut bucket), vec![vec![vec![9, 9, 9, 9], vec![101]]]);
}

#[test]
fn remove_swaps_in_the_last_entities() {
    let (a, b, t) = three_ids();
    let mut bucket = Bucket::new(a + b + t, &table());
    for k in 0..5 {
        bucket.queue_entity_insert(&entity(k));
    }
    bucket.insert_pending_entities();
    bucket.remove(&[1, 3]);
    assert_eq!(bucket.get_len(), 3);
    let firsts: Vec<u8> = contents(&mut bucket).iter().map(|e| e[1][0] - 100).collect();
    assert_eq!(firsts, vec![0, 4, 2]);
    bucket.remove(&[]);
    assert_eq!(bucket.get_len(), 3);
    bucket.remove(&[0, 1, 2]);
    assert_eq!(bucket.get_len(), 0);
}

#[test]
fn iterate_writes_back_and_captures() {
    let (a, b, t) = three_ids();
    let mut bucket = Bucket::new(a + b + t, &table());
    for k in 0..4 {
        bucket.queue_entity_insert(&entity(k));
    }
    bucket.insert_pending_entities();
    // add one to the second column, capture the even ones in capture 0 and all in 1
    let caps = bucket.iterate(&vec![1], 2, &|args: Vec<Vec<u8>>| {
        let v = args[0][0];
        (vec![vec![v + 1]], vec![v % 2 == 0, true])
    });
    assert_eq!(caps, vec![vec![0, 2], vec![0, 1, 2, 3]]);
    let seconds: Vec<u8> = contents(&mut bucket).iter().map(|e| e[1][0]).collect();
    assert_eq!(seconds, vec![101, 102, 103, 104]);
    // outputs of the wrong size are not written back; missing flags are false
    let caps = bucket.iterate(&vec![0], 1, &|_args: Vec<Vec<u8>>| (vec![vec![1]], vec![]));
    assert_eq!(caps, vec![Vec::<u32>::new()]);
    let firsts: Vec<u8> = contents(&mut bucket).iter().map(|e| e[0][0]).collect();
    assert_eq!(firsts, vec![0, 1, 2, 3]);
}
