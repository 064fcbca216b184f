use bm_core::board::Move;
use bm_core::tapered::Evaluation;
use bm_core::time::{
    isqrt, CompoundTimeManager, ConstDepth, ConstTime, Diagnostics, MainTimeManager, Manager,
    ManualAbort, Percentage, TimeManager, EXPECTED_MOVES, MIN_MOVES, NORMAL_STD_DEV, PANIC_DIV,
    PANIC_MUL, PANIC_TIME,
};

fn best() -> Move {
    Move { from: 12, to: 28, promotion: None }
}

fn report<M: TimeManager>(manager: &mut M, depth: u32, eval: i32) {
    manager.deepen(0, depth, 1000 * depth, Evaluation::new(eval), best(), 5);
}

#[test]
fn time_constants() {
    assert_eq!(EXPECTED_MOVES, 80);
    assert_eq!(MIN_MOVES, 25);
    assert_eq!(NORMAL_STD_DEV, 10);
    assert_eq!(PANIC_TIME, 10000);
    assert_eq!(PANIC_MUL, 4);
    assert_eq!(PANIC_DIV, 5);
    let p = Percentage { numerator: 1, denominator: 3 };
    assert_eq!((p.numerator, p.denominator), (1, 3));
}

#[test]
fn evaluation_keeps_its_score() {
    assert_eq!(Evaluation::new(-37).raw(), -37);
    assert_eq!(Evaluation::new(i32::MAX).raw(), i32::MAX);
}

#[test]
fn isqrt_rounds_down() {
    assert_eq!(isqrt(0), 0);
    assert_eq!(isqrt(1), 1);
    assert_eq!(isqrt(2), 1);
    assert_eq!(isqrt(3), 1);
    assert_eq!(isqrt(4), 2);
    assert_eq!(isqrt(99), 9);
    assert_eq!(isqrt(100), 10);
    assert_eq!(isqrt(2_298_450_000), 47942);
    assert_eq!(isqrt(u128::MAX), u64::MAX);
    assert_eq!(isqrt(u64::MAX as u128 * u64::MAX as u128), u64::MAX);
    assert_eq!(isqrt(u64::MAX as u128 * u64::MAX as u128 - 1), u64::MAX - 1);
}

#[test]
fn const_depth_stops_at_its_depth() {
    let mut manager = ConstDepth::new(5);
    assert!(!manager.abort(1_000_000));
    report(&mut manager, 4, 0);
    assert!(!manager.abort(0));
    report(&mut manager, 5, 0);
    assert!(manager.abort(0));
    manager.initiate(1000, 20);
    assert!(manager.abort(0));
    manager.clear();
    assert!(!manager.abort(0));
    assert_eq!(manager.current_depth, 0);
    assert_eq!(manager.depth, 5);
    report(&mut manager, 6, 0);
    assert!(manager.abort(0));
}

#[test]
fn const_depth_set_depth_decides_anew() {
    let mut manager = ConstDepth::new(9);
    report(&mut manager, 6, 0);
    assert!(!manager.abort(0));
    manager.set_depth(6);
    assert!(manager.abort(0));
    manager.set_depth(7);
    assert!(!manager.abort(0));
    let mut zero = ConstDepth::new(3);
    zero.set_depth(0);
    assert!(zero.abort(0));
}

#[test]
fn const_time_stops_after_its_time() {
    let mut manager = ConstTime::new(100);
    assert!(!manager.abort(0));
    assert!(!manager.abort(100));
    assert!(manager.abort(101));
    report(&mut manager, 50, 0);
    manager.initiate(5, 1);
    assert!(!manager.abort(100));
    manager.set_duration(7);
    assert!(manager.abort(8));
    assert!(!manager.abort(7));
    manager.clear();
    assert_eq!(manager.target_duration, u32::MAX);
    assert!(!manager.abort(u32::MAX));
}

#[test]
fn manual_abort_stops_when_told() {
    let mut manager = ManualAbort::new();
    assert!(!manager.abort(u32::MAX));
    manager.quick_abort();
    assert!(manager.abort(0));
    report(&mut manager, 3, 0);
    assert!(manager.abort(u32::MAX));
    manager.clear();
    assert!(!manager.abort(0));
    manager.quick_abort();
    assert!(manager.abort(0));
    manager.initiate(1000, 20);
    assert!(!manager.abort(0));
}

#[test]
fn main_manager_starts_empty() {
    let manager = MainTimeManager::new();
    assert_eq!(manager.expected_moves, 80);
    assert!(manager.evals.is_empty());
    assert_eq!((manager.normal_duration, manager.max_duration, manager.target_duration), (0, 0, 0));
    assert!(manager.abort(1));
    assert!(!manager.abort(0));
}

#[test]
fn main_manager_shares_the_clock_out() {
    let mut manager = MainTimeManager::new();
    manager.initiate(90_000, 30);
    assert_eq!(manager.normal_duration, 1000);
    assert_eq!(manager.target_duration, 1000);
    assert_eq!(manager.max_duration, 60_000);
    assert!(!manager.abort(1000));
    assert!(manager.abort(1001));
}

#[test]
fn main_manager_keeps_a_fifth_when_time_is_short() {
    let mut manager = MainTimeManager::new();
    manager.initiate(5000, 20);
    // nothing is left beyond the reserve: a fifth, 1000, over 80 moves
    assert_eq!(manager.normal_duration, 12);
    assert_eq!(manager.target_duration, 12);
    assert_eq!(manager.max_duration, 3333);
    manager.initiate(12_500, 20);
    // 2500 beyond the reserve and 2500 as a fifth
    assert_eq!(manager.normal_duration, 31);
    manager.initiate(12_501, 20);
    assert_eq!(manager.normal_duration, 2501 / 80);
    manager.initiate(0, 20);
    assert_eq!((manager.normal_duration, manager.max_duration, manager.target_duration), (0, 0, 0));
}

#[test]
fn main_manager_with_the_longest_clock() {
    let mut manager = MainTimeManager::new();
    manager.initiate(u32::MAX, 2);
    assert_eq!(manager.normal_duration, 53_686_966);
    assert_eq!(manager.target_duration, 53_686_966);
    assert_eq!(manager.max_duration, 2_863_311_530);
}

#[test]
fn main_manager_moves_at_once_with_one_legal_move() {
    let mut manager = MainTimeManager::new();
    manager.initiate(90_000, 1);
    assert_eq!(manager.target_duration, 0);
    assert_eq!(manager.normal_duration, 1000);
    assert_eq!(manager.max_duration, 60_000);
    assert!(manager.abort(1));
    manager.initiate(90_000, 0);
    assert_eq!(manager.target_duration, 0);
    manager.initiate(90_000, 2);
    assert_eq!(manager.target_duration, 1000);
}

#[test]
fn time_manager_variance() {
    let mut manager = MainTimeManager::new();
    manager.initiate(90_000, 30);
    assert_eq!(manager.normal_duration, 1000);
    let evals = [20, 25, 18, 500, 22];
    // variance about 500 over the weights 25, 36, 49: 229694, deviation 479.26...
    let expected = [1000, 1000, 1000, 47_926, 28_990];
    for i in 0..5 {
        let depth = 5 + i as u32;
        assert!(manager.can_deepen(depth));
        report(&mut manager, depth, evals[i]);
        assert_eq!(manager.target_duration, expected[i]);
        assert!(manager.normal_duration <= manager.target_duration);
        assert!(manager.target_duration <= manager.max_duration);
    }
    assert_eq!(manager.normal_duration, 1000);
    assert_eq!(manager.max_duration, 60_000);
    assert_eq!(manager.evals.len(), 5);
    assert_eq!(manager.evals[3], (500, 64));
}

#[test]
fn variance_counts_the_shallow_iterations_too() {
    let mut manager = MainTimeManager::new();
    manager.initiate(90_000, 30);
    for depth in 1..5 {
        assert!(manager.can_deepen(depth));
        report(&mut manager, depth, 20);
        assert_eq!(manager.target_duration, 1000);
    }
    let evals = [20, 25, 18, 500, 22];
    let expected = [1000, 1000, 1000, 47_942, 26_774];
    for i in 0..5 {
        report(&mut manager, 5 + i as u32, evals[i]);
        assert_eq!(manager.target_duration, expected[i]);
    }
    assert_eq!(manager.evals.len(), 9);
    assert_eq!(manager.evals[7], (500, 64));
}

#[test]
fn first_iteration_takes_the_normal_time() {
    let mut manager = MainTimeManager::new();
    manager.initiate(90_000, 30);
    report(&mut manager, 5, 30_000);
    assert_eq!(manager.target_duration, 1000);
    assert_eq!(manager.evals, vec![(30_000, 25)]);
    manager.clear();
    manager.initiate(90_000, 1);
    assert_eq!(manager.target_duration, 0);
    // the normal time, 90000 less the reserve over 79 moves
    report(&mut manager, 9, -5);
    assert_eq!(manager.target_duration, 1012);
    // with the most below the normal time the most is taken
    let mut capped = MainTimeManager::new();
    capped.normal_duration = 500;
    capped.max_duration = 300;
    report(&mut capped, 5, 1);
    assert_eq!(capped.target_duration, 300);
}

#[test]
fn record_without_weight_has_no_variance() {
    let mut manager = MainTimeManager::new();
    manager.initiate(90_000, 30);
    report(&mut manager, 0, 10_000);
    report(&mut manager, 0, -10_000);
    assert_eq!(manager.evals, vec![(10_000, 0), (-10_000, 0)]);
    report(&mut manager, 5, 7);
    assert_eq!(manager.target_duration, 1000);
    // now the record has weight 25 at distance 10000 from the next evaluation
    report(&mut manager, 6, 10_007);
    assert_eq!(manager.target_duration, 60_000);
}

#[test]
fn main_manager_never_takes_more_than_the_most() {
    let mut manager = MainTimeManager::new();
    manager.initiate(15_000, 30);
    // a fifth of the clock is 3000, 5000 are left beyond the reserve
    assert_eq!(manager.normal_duration, 62);
    assert_eq!(manager.max_duration, 10_000);
    for depth in 1..5 {
        report(&mut manager, depth, 0);
    }
    report(&mut manager, 5, 30_000);
    // the spread is 30000: 62 * 3000 is more than the most
    assert_eq!(manager.target_duration, 10_000);
    report(&mut manager, 6, 30_000);
    // variance 30000^2 * 30 / 55, deviation 22156 and a bit: 62 * 2215.6... = 137369
    assert_eq!(manager.target_duration, 10_000);
    report(&mut manager, 7, 30_000);
    assert_eq!(manager.target_duration, 10_000);
}

#[test]
fn main_manager_stretches_in_proportion() {
    let mut manager = MainTimeManager::new();
    manager.initiate(90_000, 30);
    report(&mut manager, 1, 0);
    // one evaluation of weight 1 at distance 15: deviation 15, one and a half times the normal time
    report(&mut manager, 5, 15);
    assert_eq!(manager.target_duration, 1500);
    manager.clear();
    report(&mut manager, 2, 0);
    // deviation exactly 10: the normal time
    report(&mut manager, 5, -10);
    assert_eq!(manager.target_duration, 1000);
    manager.clear();
    report(&mut manager, 2, 0);
    report(&mut manager, 5, 9);
    assert_eq!(manager.target_duration, 1000);
    manager.clear();
    report(&mut manager, 2, 0);
    // variance 121: 11 tenths
    report(&mut manager, 5, -11);
    assert_eq!(manager.target_duration, 1100);
}

#[test]
fn main_manager_admits_every_depth_whose_square_fits() {
    let mut manager = MainTimeManager::new();
    assert!(manager.can_deepen(0));
    assert!(manager.can_deepen(4));
    assert!(manager.can_deepen(5));
    assert!(manager.can_deepen(65535));
    assert!(!manager.can_deepen(65536));
    assert!(!manager.can_deepen(u32::MAX));
    report(&mut manager, 0, 0);
    assert!(manager.can_deepen(5));
    assert!(!manager.can_deepen(65536));
}

#[test]
fn main_manager_at_the_largest_depth_and_distance() {
    let mut manager = MainTimeManager::new();
    manager.initiate(u32::MAX, 2);
    report(&mut manager, 1, i32::MIN);
    report(&mut manager, 65535, i32::MAX);
    assert_eq!(manager.evals[1], (i32::MAX, 65535 * 65535));
    assert_eq!(manager.target_duration, 2_863_311_530);
    report(&mut manager, 65535, i32::MIN);
    assert_eq!(manager.target_duration, 2_863_311_530);
    assert_eq!(manager.evals.len(), 3);
}

#[test]
fn main_manager_clear_counts_the_moves_down() {
    let mut manager = MainTimeManager::new();
    manager.initiate(90_000, 30);
    report(&mut manager, 1, 10);
    manager.clear();
    assert!(manager.evals.is_empty());
    assert_eq!(manager.expected_moves, 79);
    assert_eq!((manager.normal_duration, manager.target_duration, manager.max_duration), (1000, 1000, 60_000));
    for _ in 0..53 {
        manager.clear();
    }
    assert_eq!(manager.expected_moves, 26);
    manager.clear();
    assert_eq!(manager.expected_moves, 25);
    manager.clear();
    assert_eq!(manager.expected_moves, 25);
    manager.initiate(90_000, 30);
    assert_eq!(manager.normal_duration, 3200);
}

#[test]
fn manager_hands_each_call_to_its_variant() {
    let mut depth = Manager::ConstDepth(ConstDepth::new(2));
    report(&mut depth, 2, 0);
    assert!(depth.abort(0));
    depth.clear();
    assert!(!depth.abort(0));
    let mut time = Manager::ConstTime(ConstTime::new(10));
    assert!(time.abort(11));
    assert!(!time.abort(10));
    let mut main = Manager::Main(MainTimeManager::new());
    main.initiate(90_000, 30);
    assert!(!main.abort(1000));
    assert!(main.abort(1001));
    report(&mut main, 1, 0);
    report(&mut main, 5, 15);
    assert!(!main.abort(1500));
    assert!(main.abort(1501));
    main.clear();
    match &main {
        Manager::Main(m) => assert_eq!(m.expected_moves, 79),
        _ => panic!("another variant"),
    }
    let mut manual = Manager::Manual(ManualAbort::new());
    assert!(!manual.abort(0));
    manual.initiate(0, 0);
    assert!(!manual.abort(0));
    time.initiate(0, 0);
    time.clear();
    assert!(!time.abort(u32::MAX));
}

#[test]
fn compound_manager_asks_the_manager_of_its_mode() {
    let managers = vec![
        Manager::ConstDepth(ConstDepth::new(3)),
        Manager::ConstTime(ConstTime::new(50)),
        Manager::Main(MainTimeManager::new()),
        Manager::Manual(ManualAbort::new()),
    ];
    let mut compound = CompoundTimeManager::new(managers, 1);
    assert_eq!(compound.mode, 1);
    assert!(!compound.abort(50));
    assert!(compound.abort(51));
    compound.set_mode(0);
    assert!(!compound.abort(51));
    report(&mut compound, 3, 0);
    assert!(compound.abort(0));
    compound.set_mode(2);
    compound.initiate(90_000, 30);
    assert!(!compound.abort(1000));
    assert!(compound.abort(1001));
    // the manager of mode 0 has kept what it was told
    compound.set_mode(0);
    assert!(compound.abort(0));
    compound.set_mode(3);
    assert!(!compound.abort(0));
}

#[test]
fn compound_manager_clears_every_manager() {
    let managers = vec![
        Manager::ConstDepth(ConstDepth::new(3)),
        Manager::ConstTime(ConstTime::new(50)),
        Manager::Main(MainTimeManager::new()),
    ];
    let mut compound = CompoundTimeManager::new(managers, 0);
    report(&mut compound, 3, 0);
    assert!(compound.abort(0));
    compound.clear();
    assert_eq!(compound.mode, 0);
    assert!(!compound.abort(0));
    compound.set_mode(1);
    assert!(!compound.abort(u32::MAX));
    match &compound.managers[2] {
        Manager::Main(m) => assert_eq!(m.expected_moves, 79),
        _ => panic!("another variant"),
    }
}

#[test]
fn diagnostics_record_nodes_and_depth() {
    let mut diagnostics = Diagnostics::new(ConstDepth::new(2));
    assert!(diagnostics.get_data().is_empty());
    diagnostics.deepen(0, 1, 111, Evaluation::new(5), best(), 1);
    assert!(!diagnostics.abort(0));
    diagnostics.deepen(1, 2, 2222, Evaluation::new(6), best(), 2);
    assert!(diagnostics.abort(0));
    assert_eq!(*diagnostics.get_data(), vec![(111, 1), (2222, 2)]);
    diagnostics.initiate(1000, 3);
    diagnostics.clear();
    assert!(!diagnostics.abort(0));
    assert_eq!(diagnostics.get_data().len(), 2);
    assert_eq!(diagnostics.manager.depth, 2);
}

#[test]
fn diagnostics_wrap_any_manager() {
    let mut diagnostics = Diagnostics::new(Manager::Main(MainTimeManager::new()));
    diagnostics.initiate(90_000, 30);
    report(&mut diagnostics, 1, 0);
    report(&mut diagnostics, 5, 15);
    assert!(!diagnostics.abort(1500));
    assert!(diagnostics.abort(1501));
    assert_eq!(*diagnostics.get_data(), vec![(1000, 1), (5000, 5)]);
    let inner = CompoundTimeManager::new(vec![ManualAbort::new(), ManualAbort::new()], 1);
    let mut nested = Diagnostics::new(inner);
    nested.manager.managers[1].quick_abort();
    assert!(nested.abort(0));
    nested.manager.set_mode(0);
    assert!(!nested.abort(0));
}

#[test]
fn managers_tell_whether_they_are_in_order() {
    assert!(ConstDepth::new(3).is_wf());
    assert!(ConstTime::new(3).is_wf());
    assert!(ManualAbort::new().is_wf());
    let mut main = MainTimeManager::new();
    assert!(main.is_wf());
    main.expected_moves = 25;
    assert!(main.is_wf());
    main.expected_moves = 24;
    assert!(!main.is_wf());
    assert!(!Manager::Main(main.clone()).is_wf());
    assert!(!Diagnostics { manager: main.clone(), data: vec![] }.is_wf());
    assert!(Manager::Manual(ManualAbort::new()).is_wf());
    let mut compound = CompoundTimeManager::new(vec![ManualAbort::new(), ManualAbort::new()], 1);
    assert!(compound.is_wf());
    compound.mode = 2;
    assert!(!compound.is_wf());
    let empty: CompoundTimeManager<ManualAbort> = CompoundTimeManager { managers: vec![], mode: 0 };
    assert!(!empty.is_wf());
    let broken = CompoundTimeManager { managers: vec![MainTimeManager::new(), main], mode: 0 };
    assert!(!broken.is_wf());
}
