use utility_programming::random::{index_from, random_index};
use utility_programming::{Generator, Modifier, Utility};

enum NumberUtility {
    Target { value: u8, penalty: i64 },
    Prime { reward: i64 },
}

impl Utility<u8> for NumberUtility {
    fn utility(&self, obj: &u8) -> i64 {
        match *self {
            NumberUtility::Target { value, penalty } => {
                (*obj as i64 - value as i64).abs() * penalty
            }
            NumberUtility::Prime { reward } => {
                if *obj < 2 {
                    return 0;
                }
                for i in 2..*obj {
                    if *obj % i == 0 {
                        return 0;
                    }
                }
                reward
            }
        }
    }
}

enum NumberGenerator {
    Fixed(u8),
}

impl Generator for NumberGenerator {
    type Output = u8;
    fn generate(&mut self) -> u8 {
        match *self {
            NumberGenerator::Fixed(val) => val,
        }
    }
}

#[derive(Clone, Copy, Debug, PartialEq)]
enum NumberModifier {
    Inc,
    Dec,
}

#[derive(Clone, Copy, Debug, PartialEq)]
struct NumberChange {
    old: u8,
    new: u8,
}

impl Modifier<u8> for NumberModifier {
    type Change = NumberChange;
    fn modify(&mut self, obj: &mut u8) -> NumberChange {
        let old = *obj;
        let new = match *self {
            NumberModifier::Inc => obj.saturating_add(1),
            NumberModifier::Dec => obj.saturating_sub(1),
        };
        *obj = new;
        NumberChange { old, new }
    }
    fn undo(&mut self, change: &NumberChange, obj: &mut u8) {
        *obj = change.old;
    }
    fn redo(&mut self, change: &NumberChange, obj: &mut u8) {
        *obj = change.new;
    }
}

#[test]
fn sum_of_two_utilities() {
    let terms = vec![
        NumberUtility::Target { value: 42, penalty: -1 },
        NumberUtility::Prime { reward: 5 },
    ];
    for o in [0u8, 1, 2, 13, 40, 41, 42, 43, 100, 255] {
        assert_eq!(terms.utility(&o), terms[0].utility(&o) + terms[1].utility(&o));
    }
    assert_eq!(terms.utility(&41), 4);
    assert_eq!(terms.utility(&42), 0);
    assert_eq!(terms.utility(&0), -42);
}

#[test]
fn empty_utility_list_is_zero() {
    let terms: Vec<NumberUtility> = Vec::new();
    assert_eq!(terms.utility(&7), 0);
}

#[test]
fn sum_beyond_one_term_range() {
    let terms = vec![
        NumberUtility::Prime { reward: i64::MAX },
        NumberUtility::Prime { reward: i64::MAX },
        NumberUtility::Prime { reward: i64::MIN },
    ];
    assert_eq!(terms.utility(&2), i64::MAX - 1);
}

#[test]
fn single_member_list_picks_index_zero() {
    let mut m = vec![NumberModifier::Inc];
    let mut x: u8 = 10;
    for _ in 0..50 {
        let change = m.modify(&mut x);
        assert_eq!(change.0, 0);
    }
    assert_eq!(x, 60);
}

#[test]
fn list_modifier_undo_and_redo() {
    let mut m = vec![NumberModifier::Inc, NumberModifier::Dec];
    for start in [0u8, 1, 100, 254, 255] {
        let mut x = start;
        let change = m.modify(&mut x);
        assert!(change.0 < 2);
        let after = x;
        let expected = if change.0 == 0 { start.saturating_add(1) } else { start.saturating_sub(1) };
        assert_eq!(after, expected);
        m.undo(&change, &mut x);
        assert_eq!(x, start);
        m.redo(&change, &mut x);
        assert_eq!(x, after);
    }
}

#[test]
fn clamped_at_domain_bounds() {
    let mut inc = NumberModifier::Inc;
    let mut x: u8 = 255;
    let change = inc.modify(&mut x);
    assert_eq!(x, 255);
    inc.undo(&change, &mut x);
    assert_eq!(x, 255);
    let mut dec = NumberModifier::Dec;
    let mut y: u8 = 0;
    dec.modify(&mut y);
    assert_eq!(y, 0);
}

#[test]
fn list_generator_picks_a_member() {
    let mut g = vec![NumberGenerator::Fixed(100), NumberGenerator::Fixed(0)];
    for _ in 0..50 {
        let v = g.generate();
        assert!(v == 100 || v == 0);
    }
    let mut one = vec![NumberGenerator::Fixed(7)];
    assert_eq!(one.generate(), 7);
}

#[test]
fn random_index_below_length() {
    for len in [1usize, 2, 3, 10, usize::MAX] {
        for _ in 0..20 {
            assert!(random_index(len) < len);
        }
    }
    assert_eq!(random_index(1), 0);
}

#[test]
fn index_from_takes_remainder() {
    assert_eq!(index_from(7, 3), 1);
    assert_eq!(index_from(2, 5), 2);
    assert_eq!(index_from(usize::MAX, 2), 1);
    assert_eq!(index_from(0, 1), 0);
}

#[test]
fn list_keeps_its_length() {
    let mut m = vec![NumberModifier::Inc, NumberModifier::Dec];
    let mut x: u8 = 9;
    let change = m.modify(&mut x);
    m.undo(&change, &mut x);
    m.redo(&change, &mut x);
    assert_eq!(m.len(), 2);
    let mut g = vec![NumberGenerator::Fixed(1), NumberGenerator::Fixed(2)];
    g.generate();
    assert_eq!(g.len(), 2);
}
