use turn_tracker::{Character, Combat, Effect, EffectError, EffectField};

fn effect(description: &str, modifier: &str, duration: u8) -> Effect {
    Effect {
        description: String::from(description),
        modifier: String::from(modifier),
        duration,
    }
}

fn names(combat: &Combat) -> Vec<&str> {
    combat.characters.iter().map(|c| c.name.as_str()).collect()
}

fn initiatives(combat: &Combat) -> Vec<u8> {
    combat.characters.iter().map(|c| c.initiative).collect()
}

#[test]
fn test_new_combat() -> Result<(), String> {
    let new_combat = Combat::new();

    assert_eq!(new_combat.round, 0);
    assert_eq!(new_combat.characters, Vec::new());
    assert_eq!(new_combat.environ, Vec::new());

    Ok(())
}

#[test]
fn test_combat_add_effect_environ() -> Result<(), EffectError> {
    let mut new_combat = Combat::new();
    let description: String = String::from("Blinded");
    let modifier: String = String::from("-2 Perception");
    let duration: String = String::from("3");
    let effect_vec = vec![description, modifier, duration];
    let test_effect = Effect::new(effect_vec.iter())?;

    new_combat.add_environ(test_effect);

    assert_eq!(new_combat.environ, vec![Effect::new(effect_vec.iter())?]);

    Ok(())
}

#[test]
fn test_combat_add_character() -> Result<(), String> {
    let mut new_combat = Combat::new();
    let test_char = Character::new("TEST", 10)?;

    new_combat.add_char(test_char);

    assert_eq!(new_combat.characters, vec![Character::new("TEST", 10)?]);

    Ok(())
}

#[test]
fn test_combat_next_round() -> Result<(), String> {
    let mut new_combat = Combat::new();
    let mut test_char = Character::new("TEST", 10)?;
    let effect_vec =
        vec![String::from("Blinded"), String::from("-2 Perception"), String::from("1")];
    let effect1 = Effect::new(effect_vec.iter()).expect("Effect creation failed.");
    let effect2 = Effect::new(effect_vec.iter()).expect("Effect creation failed.");
    test_char.add_effect(effect1);

    new_combat.add_environ(effect2);
    new_combat.add_char(test_char);

    new_combat.next_round();
    for i in new_combat.characters {
        assert_eq!(i.effects, Vec::new());
    }
    assert_eq!(new_combat.environ, Vec::new());
    assert_eq!(new_combat.round, 1);

    Ok(())
}

#[test]
fn environ_keeps_the_order_of_addition() {
    let mut combat = Combat::new();
    combat.add_environ(effect("Fog", "Perception -4", 3));
    combat.add_environ(effect("Darkness", "Attacks -2", 9));
    combat.add_environ(effect("Fog", "Perception -4", 1));
    assert_eq!(
        combat.environ,
        vec![
            effect("Fog", "Perception -4", 3),
            effect("Darkness", "Attacks -2", 9),
            effect("Fog", "Perception -4", 1),
        ]
    );
    assert_eq!(combat.round, 0);
    assert!(combat.characters.is_empty());
}

#[test]
fn roster_is_in_descending_order_whatever_the_order_of_addition() {
    let orders: [[u8; 5]; 4] =
        [[1, 2, 3, 4, 5], [5, 4, 3, 2, 1], [3, 1, 5, 2, 4], [0, 255, 17, 128, 16]];
    for order in orders {
        let mut combat = Combat::new();
        for initiative in order {
            combat.add_char(Character::new("x", initiative).expect("a character"));
            let ranked = initiatives(&combat);
            assert!(ranked.windows(2).all(|pair| pair[0] > pair[1]), "{:?}", ranked);
        }
        let mut expected = order.to_vec();
        expected.sort();
        expected.reverse();
        assert_eq!(initiatives(&combat), expected);
    }
}

#[test]
fn characters_of_equal_initiative_stay_in_the_order_of_addition() {
    let mut combat = Combat::new();
    for (name, initiative) in
        [("a", 10u8), ("b", 12), ("c", 10), ("d", 12), ("e", 11), ("f", 10), ("g", 12)]
    {
        combat.add_char(Character::new(name, initiative).expect("a character"));
    }
    assert_eq!(names(&combat), vec!["b", "d", "g", "e", "a", "c", "f"]);
    assert_eq!(initiatives(&combat), vec![12, 12, 12, 11, 10, 10, 10]);
}

#[test]
fn add_char_keeps_round_and_environ() {
    let mut combat = Combat::new();
    combat.add_environ(effect("Fog", "Perception -4", 3));
    combat.next_round();
    combat.add_char(Character::new("Bob", 11).expect("a character"));
    assert_eq!(combat.round, 1);
    assert_eq!(combat.environ, vec![effect("Fog", "Perception -4", 2)]);
}

#[test]
fn add_char_keeps_the_effects_of_each_character() {
    let mut combat = Combat::new();
    let mut bob = Character::new("Bob", 11).expect("a character");
    bob.add_effect(effect("Prone", "AC -2", 1));
    let mut jim = Character::new("Jim", 12).expect("a character");
    jim.add_effect(effect("Blinded", "Perception -2", 2));
    combat.add_char(bob);
    combat.add_char(jim);
    assert_eq!(
        combat.characters,
        vec![
            Character {
                name: String::from("Jim"),
                initiative: 12,
                effects: vec![effect("Blinded", "Perception -2", 2)],
            },
            Character {
                name: String::from("Bob"),
                initiative: 11,
                effects: vec![effect("Prone", "AC -2", 1)],
            },
        ]
    );
}

#[test]
fn changed_initiative_shows_at_the_next_addition() {
    let mut combat = Combat::new();
    combat.add_char(Character::new("Bob", 11).expect("a character"));
    combat.add_char(Character::new("Jim", 12).expect("a character"));
    assert_eq!(names(&combat), vec!["Jim", "Bob"]);

    combat.characters[1].change_init(20);
    assert_eq!(names(&combat), vec!["Jim", "Bob"]);

    combat.add_char(Character::new("Ann", 1).expect("a character"));
    assert_eq!(names(&combat), vec!["Bob", "Jim", "Ann"]);
    assert_eq!(initiatives(&combat), vec![20, 12, 1]);
}

#[test]
fn next_round_counts_one_round_per_call() {
    let mut combat = Combat::new();
    for expected in 1..=255u8 {
        combat.next_round();
        assert_eq!(combat.round, expected);
    }
}

#[test]
fn effect_of_duration_two_leaves_after_the_second_round() {
    let mut combat = Combat::new();
    combat.add_environ(effect("Fog", "Perception -4", 2));
    combat.next_round();
    assert_eq!(combat.environ, vec![effect("Fog", "Perception -4", 1)]);
    combat.next_round();
    assert_eq!(combat.environ, Vec::new());
    combat.next_round();
    assert_eq!(combat.environ, Vec::new());
    assert_eq!(combat.round, 3);
}

#[test]
fn effect_of_duration_one_leaves_after_the_first_round() {
    let mut combat = Combat::new();
    combat.add_environ(effect("Fog", "Perception -4", 1));
    combat.next_round();
    assert_eq!(combat.environ, Vec::new());
    assert_eq!(combat.round, 1);
}

#[test]
fn effect_of_duration_zero_leaves_at_the_next_round() {
    let mut combat = Combat::new();
    combat.add_environ(effect("Flash", "", 0));
    let mut bob = Character::new("Bob", 11).expect("a character");
    bob.add_effect(effect("Dazed", "", 0));
    combat.add_char(bob);
    assert_eq!(combat.environ.len(), 1);
    assert_eq!(combat.characters[0].effects.len(), 1);
    combat.next_round();
    assert!(combat.environ.is_empty());
    assert!(combat.characters[0].effects.is_empty());
}

#[test]
fn next_round_ages_every_character_and_the_environment() {
    let mut combat = Combat::new();
    let mut bob = Character::new("Bob", 11).expect("a character");
    bob.add_effect(effect("Prone", "AC -2", 1));
    bob.add_effect(effect("Slowed", "Speed -10", 3));
    let mut jim = Character::new("Jim", 12).expect("a character");
    jim.add_effect(effect("Blinded", "Perception -2", 2));
    combat.add_char(bob);
    combat.add_char(jim);
    combat.add_char(Character::new("Ann", 1).expect("a character"));
    combat.add_environ(effect("Fog", "Perception -4", 5));
    combat.add_environ(effect("Gust", "Ranged -2", 1));

    combat.next_round();

    assert_eq!(combat.round, 1);
    assert_eq!(names(&combat), vec!["Jim", "Bob", "Ann"]);
    assert_eq!(combat.characters[0].effects, vec![effect("Blinded", "Perception -2", 1)]);
    assert_eq!(combat.characters[1].effects, vec![effect("Slowed", "Speed -10", 2)]);
    assert_eq!(combat.characters[2].effects, Vec::new());
    assert_eq!(combat.environ, vec![effect("Fog", "Perception -4", 4)]);
}

#[test]
fn two_characters_and_one_effect_over_two_rounds() {
    let mut combat = Combat::new();
    let bob = Character::new("Bob", 11).expect("a character");
    let mut jim = Character::new("Jim", 12).expect("a character");
    let blinded =
        vec![String::from("Blinded"), String::from("Perception -2"), String::from("2")];
    jim.add_effect(Effect::new(blinded.iter()).expect("three valid tokens"));
    combat.add_char(bob);
    combat.add_char(jim);
    assert_eq!(names(&combat), vec!["Jim", "Bob"]);

    combat.next_round();
    assert_eq!(combat.characters[0].effects.len(), 1);
    assert_eq!(combat.characters[0].effects[0].duration, 1);
    assert_eq!(combat.round, 1);

    combat.next_round();
    assert!(combat.characters[0].effects.is_empty());
    assert_eq!(combat.round, 2);
}

#[test]
fn environment_effect_of_one_round_is_gone_after_one_round() {
    let mut combat = Combat::new();
    combat.add_environ(effect("Fog", "Perception -4", 1));
    combat.next_round();
    assert!(combat.environ.is_empty());
}

#[test]
fn empty_tokens_and_negative_duration_are_rejected() {
    let empty: Vec<String> = Vec::new();
    assert!(matches!(Effect::new(empty.iter()), Err(EffectError::MissingField(_))));
    assert_eq!(
        Effect::new(empty.iter()),
        Err(EffectError::MissingField(EffectField::Description))
    );
    let negative =
        vec![String::from("Blinded"), String::from("-2 Perception"), String::from("-3")];
    assert_eq!(Effect::new(negative.iter()), Err(EffectError::InvalidDuration));
}

#[test]
fn sort_characters_puts_the_roster_in_order_after_a_change() {
    let mut combat = Combat::new();
    for (name, initiative) in [("a", 10u8), ("b", 12), ("c", 10), ("d", 7)] {
        combat.add_char(Character::new(name, initiative).expect("a character"));
    }
    assert_eq!(names(&combat), vec!["b", "a", "c", "d"]);

    combat.characters[3].change_init(12);
    combat.characters[0].change_init(10);
    assert_eq!(names(&combat), vec!["b", "a", "c", "d"]);

    combat.sort_characters();
    assert_eq!(names(&combat), vec!["d", "b", "a", "c"]);
    assert_eq!(initiatives(&combat), vec![12, 10, 10, 10]);
    assert_eq!(combat.round, 0);
    assert!(combat.environ.is_empty());
}

#[test]
fn sort_characters_leaves_a_roster_in_order_as_it_is() {
    let mut combat = Combat::new();
    combat.sort_characters();
    assert!(combat.characters.is_empty());
    for (name, initiative) in [("a", 3u8), ("b", 3), ("c", 9)] {
        combat.add_char(Character::new(name, initiative).expect("a character"));
    }
    combat.sort_characters();
    assert_eq!(names(&combat), vec!["c", "a", "b"]);
}

#[test]
fn roster_in_ascending_order_is_turned_round() {
    let mut combat = Combat::new();
    for initiative in 0..=255u8 {
        combat.add_char(Character::new("x", initiative).expect("a character"));
    }
    let expected: Vec<u8> = (0..=255u8).rev().collect();
    assert_eq!(initiatives(&combat), expected);
}
