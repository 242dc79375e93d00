use turn_tracker::duration::parse_duration;
use turn_tracker::{Effect, EffectError, EffectField};

fn tokens(parts: &[&str]) -> Vec<String> {
    parts.iter().map(|part| String::from(*part)).collect()
}

#[test]
fn test_new_effect() -> Result<(), EffectError> {
    let description: String = String::from("Blinded");
    let modifier: String = String::from("-2 Perception");
    let duration: String = String::from("3");
    let effect_vec = vec![description, modifier, duration];

    let test_effect = Effect::new(effect_vec.iter())?;

    assert_eq!(test_effect.description, effect_vec[0]);
    assert_eq!(test_effect.modifier, effect_vec[1]);
    assert_eq!(test_effect.duration, effect_vec[2].parse::<u8>().unwrap());

    Ok(())
}

#[test]
#[should_panic]
fn test_effect_inv_duration() {
    let description: String = String::from("Blinded");
    let modifier: String = String::from("-2 Perception");
    let duration: String = String::from("-3");
    let effect_vec = vec![description, modifier, duration];

    Effect::new(effect_vec.iter()).expect("Effect creation failed");
}

#[test]
#[should_panic]
fn test_effect_no_description() {
    let effect_vec: Vec<String> = Vec::new();

    Effect::new(effect_vec.iter()).expect("Effect creation failed");
}

#[test]
#[should_panic]
fn test_effect_no_modifier() {
    let description: String = String::from("Blinded");
    let effect_vec: Vec<String> = vec![description];

    Effect::new(effect_vec.iter()).expect("Effect creation failed");
}

#[test]
#[should_panic]
fn test_effect_no_duration() {
    let description: String = String::from("Blinded");
    let modifier: String = String::from("-2 Perception");
    let effect_vec: Vec<String> = vec![description, modifier];

    Effect::new(effect_vec.iter()).expect("Effect creation failed");
}

#[test]
fn test_effect_decrement_duration() -> Result<(), EffectError> {
    let description: String = String::from("Blinded");
    let modifier: String = String::from("-2 Perception");
    let duration: String = String::from("3");
    let effect_vec = vec![description, modifier, duration];

    let mut test_effect = Effect::new(effect_vec.iter())?;

    assert_eq!(test_effect.duration, 3);
    test_effect.decrement_duration();
    assert_eq!(test_effect.duration, 2);

    Ok(())
}

#[test]
fn effect_fields_equal_the_tokens() {
    let effect_vec = tokens(&["Slowed", "Speed -10", "255"]);
    let effect = Effect::new(effect_vec.iter()).expect("three valid tokens");
    assert_eq!(
        effect,
        Effect {
            description: String::from("Slowed"),
            modifier: String::from("Speed -10"),
            duration: 255,
        }
    );
}

#[test]
fn effect_from_empty_description_and_modifier() {
    let effect_vec = tokens(&["", "", "0"]);
    let effect = Effect::new(effect_vec.iter()).expect("empty texts are accepted");
    assert_eq!(effect.description, "");
    assert_eq!(effect.modifier, "");
    assert_eq!(effect.duration, 0);
}

#[test]
fn effect_reads_three_tokens_only() {
    let effect_vec = tokens(&["Blinded", "Perception -2", "2", "not a number"]);
    let effect = Effect::new(effect_vec.iter()).expect("the fourth token is not read");
    assert_eq!(effect.duration, 2);
}

#[test]
fn effect_from_a_partly_read_iterator() {
    let effect_vec = tokens(&["skipped", "Blinded", "Perception -2", "4"]);
    let mut rest = effect_vec.iter();
    rest.next();
    let effect = Effect::new(rest).expect("three tokens are left");
    assert_eq!(effect.description, "Blinded");
    assert_eq!(effect.modifier, "Perception -2");
    assert_eq!(effect.duration, 4);
}

#[test]
fn no_token_gives_missing_description() {
    let effect_vec: Vec<String> = Vec::new();
    assert_eq!(
        Effect::new(effect_vec.iter()),
        Err(EffectError::MissingField(EffectField::Description))
    );
}

#[test]
fn one_token_gives_missing_modifier() {
    let effect_vec = tokens(&["Blinded"]);
    assert_eq!(
        Effect::new(effect_vec.iter()),
        Err(EffectError::MissingField(EffectField::Modifier))
    );
}

#[test]
fn two_tokens_give_missing_duration() {
    let effect_vec = tokens(&["Blinded", "-2 Perception"]);
    assert_eq!(
        Effect::new(effect_vec.iter()),
        Err(EffectError::MissingField(EffectField::Duration))
    );
}

#[test]
fn negative_duration_is_invalid() {
    let effect_vec = tokens(&["Blinded", "-2 Perception", "-3"]);
    assert_eq!(Effect::new(effect_vec.iter()), Err(EffectError::InvalidDuration));
}

#[test]
fn non_numeric_duration_is_invalid() {
    for text in ["three", "", "3 ", " 3", "1.5", "0x10", "+", "-", "++1", "-0", "3a", "٣"] {
        let effect_vec = tokens(&["Blinded", "-2 Perception", text]);
        assert_eq!(
            Effect::new(effect_vec.iter()),
            Err(EffectError::InvalidDuration),
            "duration token {:?}",
            text
        );
    }
}

#[test]
fn duration_out_of_range_is_invalid() {
    for text in ["256", "300", "1000", "99999999999999999999999999", "0256"] {
        let effect_vec = tokens(&["Blinded", "-2 Perception", text]);
        assert_eq!(
            Effect::new(effect_vec.iter()),
            Err(EffectError::InvalidDuration),
            "duration token {:?}",
            text
        );
    }
}

#[test]
fn missing_field_comes_before_invalid_duration() {
    let effect_vec = tokens(&["Blinded", "not a number"]);
    assert_eq!(
        Effect::new(effect_vec.iter()),
        Err(EffectError::MissingField(EffectField::Duration))
    );
}

#[test]
fn parse_duration_reads_decimal_numbers() {
    assert_eq!(parse_duration("0"), Some(0));
    assert_eq!(parse_duration("7"), Some(7));
    assert_eq!(parse_duration("12"), Some(12));
    assert_eq!(parse_duration("255"), Some(255));
    assert_eq!(parse_duration("+9"), Some(9));
    assert_eq!(parse_duration("007"), Some(7));
    assert_eq!(parse_duration("000000000000000000000000000255"), Some(255));
}

#[test]
fn parse_duration_agrees_with_the_standard_parser() {
    let mut samples: Vec<String> = Vec::new();
    for n in 0..400u32 {
        samples.push(format!("{}", n));
        samples.push(format!("+{}", n));
        samples.push(format!("-{}", n));
        samples.push(format!("0{}", n));
        samples.push(format!("{}x", n));
    }
    for text in ["", "+", "-", " ", "١", "1 ", "1_0", "1e1"] {
        samples.push(String::from(text));
    }
    for text in samples {
        assert_eq!(parse_duration(&text), text.parse::<u8>().ok(), "token {:?}", text);
    }
}

#[test]
fn decrement_counts_down_to_zero() {
    let mut effect = Effect {
        description: String::from("Blinded"),
        modifier: String::from("Perception -2"),
        duration: 2,
    };
    effect.decrement_duration();
    assert_eq!(effect.duration, 1);
    effect.decrement_duration();
    assert_eq!(effect.duration, 0);
}

#[test]
fn decrement_at_zero_stays_at_zero() {
    let mut effect = Effect {
        description: String::from("Blinded"),
        modifier: String::from("Perception -2"),
        duration: 0,
    };
    effect.decrement_duration();
    assert_eq!(effect.duration, 0);
    effect.decrement_duration();
    assert_eq!(effect.duration, 0);
    assert_eq!(effect.description, "Blinded");
    assert_eq!(effect.modifier, "Perception -2");
}

#[test]
fn decrement_from_the_largest_duration() {
    let mut effect = Effect {
        description: String::from("Cursed"),
        modifier: String::from("All saves -1"),
        duration: 255,
    };
    effect.decrement_duration();
    assert_eq!(effect.duration, 254);
}

#[test]
fn each_error_has_its_message() {
    assert_eq!(
        EffectError::MissingField(EffectField::Description).message(),
        "Didn't get description string"
    );
    assert_eq!(
        EffectError::MissingField(EffectField::Modifier).message(),
        "Didn't get modifier string"
    );
    assert_eq!(
        EffectError::MissingField(EffectField::Duration).message(),
        "Didn't get duration string"
    );
    assert_eq!(
        EffectError::InvalidDuration.message(),
        "Duration must be a non-negative integer."
    );
}
