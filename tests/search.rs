use utility_programming::optimizer::best_cut;
use utility_programming::{Modifier, ModifyOptimizer, Utility};

enum NumberUtility {
    Target { value: u8, penalty: i64 },
    Prime { reward: i64 },
}

impl Utility<u8> for NumberUtility {
    fn utility(&self, obj: &u8) -> i64 {
        match *self {
            NumberUtility::Target { value, penalty } => {
                (*obj as i64 - value as i64).abs() * penalty
            }
            NumberUtility::Prime { reward } => {
                if *obj < 2 {
                    return 0;
                }
                for i in 2..*obj {
                    if *obj % i == 0 {
                        return 0;
                    }
                }
                reward
            }
        }
    }
}

enum NumberModifier {
    Inc,
    Dec,
}

#[derive(Clone, Copy, Debug, PartialEq)]
struct NumberChange {
    old: u8,
    new: u8,
}

impl Modifier<u8> for NumberModifier {
    type Change = NumberChange;
    fn modify(&mut self, obj: &mut u8) -> NumberChange {
        let old = *obj;
        let new = match *self {
            NumberModifier::Inc => obj.saturating_add(1),
            NumberModifier::Dec => obj.saturating_sub(1),
        };
        *obj = new;
        NumberChange { old, new }
    }
    fn undo(&mut self, change: &NumberChange, obj: &mut u8) {
        *obj = change.old;
    }
    fn redo(&mut self, change: &NumberChange, obj: &mut u8) {
        *obj = change.new;
    }
}

fn number_optimizer(tries: usize, depth: usize) -> ModifyOptimizer<Vec<NumberModifier>, Vec<NumberUtility>> {
    ModifyOptimizer {
        modifier: vec![NumberModifier::Inc, NumberModifier::Dec],
        utility: vec![
            NumberUtility::Target { value: 42, penalty: -1 },
            NumberUtility::Prime { reward: 5 },
        ],
        tries,
        depth,
    }
}

fn score(x: u8) -> i64 {
    let u = vec![
        NumberUtility::Target { value: 42, penalty: -1 },
        NumberUtility::Prime { reward: 5 },
    ];
    u.utility(&x)
}

#[test]
fn search_reaches_local_optimum() {
    let mut opt = number_optimizer(1000, 20);
    let mut num: u8 = 0;
    let mut calls = 0;
    loop {
        let old = num;
        opt.modify(&mut num);
        calls += 1;
        if num == old {
            break;
        }
        assert!(score(num) > score(old));
        assert!(calls < 300);
    }
    let v = num;
    assert!(score(v) >= score(v.saturating_add(1)));
    assert!(score(v) >= score(v.saturating_sub(1)));
}

#[test]
fn search_never_lowers_utility() {
    for start in [0u8, 20, 37, 41, 42, 43, 90, 255] {
        let mut opt = number_optimizer(30, 5);
        let mut num = start;
        let best = opt.optimize(&mut num);
        assert!(score(num) >= score(start));
        assert!(best.len() <= 5);
        if best.is_empty() {
            assert_eq!(num, start);
        } else {
            assert!(score(num) > score(start));
        }
    }
}

#[test]
fn search_change_undoes_and_redoes() {
    let mut opt = number_optimizer(50, 10);
    let start: u8 = 10;
    let mut num = start;
    let change = opt.modify(&mut num);
    let after = num;
    assert!(change.len() <= 10);
    if change.is_empty() {
        assert_eq!(after, start);
    } else {
        assert!(score(after) > score(start));
    }
    opt.undo(&change, &mut num);
    assert_eq!(num, start);
    opt.redo(&change, &mut num);
    assert_eq!(num, after);
    opt.undo(&change, &mut num);
    assert_eq!(num, start);
}

#[test]
fn zero_tries_or_depth_leaves_object() {
    let mut none = number_optimizer(0, 20);
    let mut num: u8 = 5;
    let change = none.modify(&mut num);
    assert!(change.is_empty());
    assert_eq!(num, 5);
    let mut shallow = number_optimizer(100, 0);
    let change = shallow.modify(&mut num);
    assert!(change.is_empty());
    assert_eq!(num, 5);
}

#[test]
fn optimum_stays_put() {
    let mut opt = number_optimizer(200, 3);
    let mut num: u8 = 41;
    let change = opt.modify(&mut num);
    assert!(change.is_empty());
    assert_eq!(num, 41);
}

#[test]
fn nested_search_as_modifier() {
    let mut outer = ModifyOptimizer {
        modifier: number_optimizer(20, 4),
        utility: vec![
            NumberUtility::Target { value: 42, penalty: -1 },
            NumberUtility::Prime { reward: 5 },
        ],
        tries: 5,
        depth: 3,
    };
    let start: u8 = 0;
    let mut num = start;
    let change = outer.modify(&mut num);
    let after = num;
    assert!(score(after) >= score(start));
    outer.undo(&change, &mut num);
    assert_eq!(num, start);
    outer.redo(&change, &mut num);
    assert_eq!(num, after);
}

#[test]
fn best_cut_keeps_first_highest() {
    assert_eq!(best_cut(0, &vec![1, 3, 2, 3]), (3, 2));
    assert_eq!(best_cut(0, &vec![-1, 2]), (2, 2));
    assert_eq!(best_cut(5, &vec![1, 5, 4]), (5, 0));
    assert_eq!(best_cut(-10, &vec![]), (-10, 0));
    assert_eq!(best_cut(i64::MIN, &vec![i64::MIN, i64::MIN + 1]), (i64::MIN + 1, 2));
}

#[test]
fn attempt_restores_object() {
    let mut opt = number_optimizer(1, 6);
    let start: u8 = 30;
    let mut num = start;
    let (walk, scores) = opt.attempt(&mut num);
    assert_eq!(num, start);
    assert_eq!(walk.len(), 6);
    assert_eq!(scores.len(), 6);
    for k in 0..walk.len() {
        let prefix: Vec<_> = walk[..k + 1].to_vec();
        opt.redo(&prefix, &mut num);
        assert_eq!(score(num), scores[k]);
        assert!(num.abs_diff(start) as usize <= k + 1);
        opt.undo(&prefix, &mut num);
        assert_eq!(num, start);
    }
    let mut flat = number_optimizer(1, 0);
    let (none, no_scores) = flat.attempt(&mut num);
    assert!(none.is_empty() && no_scores.is_empty());
    assert_eq!(num, start);
}
