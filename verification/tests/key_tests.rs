use compy::key::{CompId, Key};

fn ids(n: usize) -> Vec<CompId> {
    let mut out = Vec::new();
    let mut id = CompId::default();
    for _ in 0..n {
        out.push(id);
        id = id.inc();
    }
    out
}

#[test]
fn default_key_is_empty_group() {
    let none = Key::default();
    let id = CompId::default();
    assert!(Key::from(id).contains(none));
    assert!(Key::from(id).excludes(none));
    assert_eq!(none + none, none);
}

#[test]
fn add_combines_and_sub_removes() {
    let v = ids(4);
    let (pos, vel, acc) = (Key::from(v[1]), Key::from(v[2]), Key::from(v[3]));
    // pos + vel + acc - vel == pos + acc
    assert_eq!(pos + vel + acc - vel, pos + acc);
    assert_eq!(v[1] + v[2], pos + vel);
    assert_eq!(v[1] - v[1], Key::default());
    assert_eq!((pos + vel) - v[2], pos);
}

#[test]
fn add_is_order_free() {
    let v = ids(3);
    let (a, b, c) = (Key::from(v[0]), Key::from(v[1]), Key::from(v[2]));
    assert_eq!(a + b, b + a);
    assert_eq!((a + b) + c, a + (b + c));
    assert_eq!(a + a, a);
}

#[test]
fn contains_and_excludes() {
    let v = ids(3);
    let (a, b, c) = (Key::from(v[0]), Key::from(v[1]), Key::from(v[2]));
    let ab = a + b;
    assert!(ab.contains(a));
    assert!(ab.contains(b));
    assert!(ab.contains(ab));
    assert!(!ab.contains(c));
    assert!(!ab.contains(a + c));
    assert!(ab.excludes(c));
    assert!(!ab.excludes(b + c));
}

#[test]
fn inc_moves_to_the_next_bit() {
    let v = ids(65);
    for i in 0..64 {
        for j in 0..64 {
            assert_eq!(Key::from(v[i]).excludes(Key::from(v[j])), i != j);
        }
    }
    // after the top bit the counter runs out of bits
    assert_eq!(Key::from(v[64]), Key::default());
}

#[test]
fn for_each_comp_id_visits_members_in_order() {
    let v = ids(6);
    let key = v[5] + v[1] + v[3];
    let visited = key.for_each_comp_id(|id: CompId| id);
    assert_eq!(visited, vec![v[1], v[3], v[5]]);
    let none = Key::default().for_each_comp_id(|id: CompId| id);
    assert!(none.is_empty());
    let bits = key.for_each_comp_id(|id: CompId| Key::from(id));
    assert_eq!(bits.len(), 3);
    assert_eq!(bits[0] + bits[1] + bits[2], key);
}
