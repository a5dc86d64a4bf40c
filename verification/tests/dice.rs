use shut_the_box::dice::Dice;

#[test]
fn test_dice_roll() {
    let mut dice = Dice::new();
    dice.roll();
    assert_eq!(dice.result(), dice.values.0 + dice.values.1);
}

#[test]
fn test_dice_start_at_zero() {
    let dice = Dice::new();
    assert_eq!(dice.values, (0, 0));
    assert_eq!(dice.result(), 0);
}

#[test]
fn test_dice_faces_are_in_range() {
    let mut dice = Dice::new();
    let mut seen = [false; 7];
    for _ in 0..2000 {
        dice.roll();
        assert!(1 <= dice.values.0 && dice.values.0 <= 6);
        assert!(1 <= dice.values.1 && dice.values.1 <= 6);
        assert!(2 <= dice.result() && dice.result() <= 12);
        seen[dice.values.0] = true;
        seen[dice.values.1] = true;
    }
    for face in 1..=6 {
        assert!(seen[face], "face {} never came in 2000 rolls", face);
    }
    assert!(!seen[0]);
}

#[test]
fn test_dice_result_is_the_sum() {
    let mut dice = Dice::new();
    dice.values = (3, 4);
    assert_eq!(dice.result(), 7);
    dice.values = (6, 6);
    assert_eq!(dice.result(), 12);
}

#[test]
fn test_dice_pprint() {
    let mut dice = Dice::new();
    dice.values = (1, 2);
    assert_eq!(dice.pprint(), "\u{2680} \u{2681}");
    dice.values = (3, 4);
    assert_eq!(dice.pprint(), "\u{2682} \u{2683}");
    dice.values = (5, 6);
    assert_eq!(dice.pprint(), "\u{2684} \u{2685}");
    dice.values = (0, 7);
    assert_eq!(dice.pprint(), "? ?");
}
