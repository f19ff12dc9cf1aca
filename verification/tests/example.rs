use compy::compy_builder::CompyBuilder;
use compy::key;
use std::any::TypeId;
use std::mem::size_of;

#[test]
fn example() {
    // structs
    #[allow(dead_code)]
    struct Health {
        current: u8,
        max: u8,
    }
    struct KillAtZeroHealth;
    #[allow(dead_code)]
    struct PlaySoundOnDeath {
        sound: &'static str,
    }

    // construct compy
    let mut compy = CompyBuilder::new()
        .with::<Health>()
        .with::<KillAtZeroHealth>()
        .with::<PlaySoundOnDeath>()
        .build();

    // insert: each component as its type and bytes
    let sound: &'static str = "oof.ogg";
    let mut sound_bytes = (sound.as_ptr() as usize).to_ne_bytes().to_vec();
    sound_bytes.extend_from_slice(&sound.len().to_ne_bytes());
    assert_eq!(sound_bytes.len(), size_of::<PlaySoundOnDeath>());
    compy.insert(&vec![
        (TypeId::of::<Health>(), vec![1, 10]),
        (TypeId::of::<KillAtZeroHealth>(), vec![]),
        (TypeId::of::<PlaySoundOnDeath>(), sound_bytes),
    ]);

    // insert all
    compy.insert_all();

    // update hp
    let pkey = compy.get_key_for::<Health>().unwrap();
    let nkey = key::Key::default();
    let zero_hp = compy.iterate_mut(pkey, nkey, &vec![TypeId::of::<Health>()], 1, |args: Vec<Vec<u8>>| {
        // inflict 1 damage on all things
        let current = args[0][0] - 1;
        let max = args[0][1];

        // capture everything with 1 hp
        (vec![vec![current, max]], vec![current == 0])
    });

    let all = pkey
        + compy.get_key_for::<KillAtZeroHealth>().unwrap()
        + compy.get_key_for::<PlaySoundOnDeath>().unwrap();
    assert_eq!(zero_hp[0].get(all), Some(&vec![0u32]));
    assert_eq!(compy.entity_count(), 1);
}
