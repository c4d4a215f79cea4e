use sze_rs::load::{get_load_level, LoadDelta, LoadLeve, LoadListenerHandle, DEFAULT_LOAD};

const STAT1: &str = "cpu  100 0 50 800 50 0 0 0 0 0\ncpu0 50 0 25 400 25 0 0 0 0 0\nintr 1 2 3\n";
const STAT2: &str = "cpu  160 0 90 900 50 0 0 0 0 0\ncpu0 80 0 45 450 25 0 0 0 0 0\n";

#[test]
fn load_levels_follow_thresholds() {
    assert_eq!(get_load_level(-128), LoadLeve::Low);
    assert_eq!(get_load_level(0), LoadLeve::Low);
    assert_eq!(get_load_level(19), LoadLeve::Low);
    assert_eq!(get_load_level(20), LoadLeve::Mid);
    assert_eq!(get_load_level(39), LoadLeve::Mid);
    assert_eq!(get_load_level(40), LoadLeve::High);
    assert_eq!(get_load_level(59), LoadLeve::High);
    assert_eq!(get_load_level(60), LoadLeve::Ehight);
    assert_eq!(get_load_level(127), LoadLeve::Ehight);
}

#[test]
fn default_load_is_high() {
    assert_eq!(DEFAULT_LOAD, 50);
    assert_eq!(get_load_level(DEFAULT_LOAD), LoadLeve::High);
}

#[test]
fn first_reading_measures_from_zero() {
    let mut h = LoadListenerHandle::new();
    assert!(h.can_read(STAT1));
    // total = 100+0+50+800+50 = 1000, idle = 50+800 = 850 (the third and fourth counters)
    assert_eq!(h.read_load(STAT1), Some(LoadDelta { busy: 150, total: 1000 }));
}

#[test]
fn second_reading_measures_the_difference() {
    let mut h = LoadListenerHandle::new();
    h.read_load(STAT1);
    // total 1200, idle (the third and fourth counters) 990: deltas 200 and 140
    assert_eq!(h.read_load(STAT2), Some(LoadDelta { busy: 60, total: 200 }));
    // the same text again: nothing moved
    assert_eq!(h.read_load(STAT2), Some(LoadDelta { busy: 0, total: 0 }));
}

#[test]
fn deltas_of_consecutive_readings_add_up() {
    let mut a = LoadListenerHandle::new();
    let d1 = a.read_load(STAT1).unwrap();
    let d2 = a.read_load(STAT2).unwrap();
    let mut b = LoadListenerHandle::new();
    let d = b.read_load(STAT2).unwrap();
    assert_eq!(d1.total + d2.total, d.total);
    assert_eq!(d1.busy + d2.busy, d.busy);
}

#[test]
fn text_without_cpu_line_changes_nothing() {
    let mut h = LoadListenerHandle::new();
    h.read_load(STAT1);
    assert_eq!(h.read_load("intr 1 2\ncpu0 1 2 3 4 5 6 7 8 9 10\n"), None);
    assert_eq!(h.read_load(""), None);
    // a `cpu ` line with too few words is passed over
    assert_eq!(h.read_load("cpu  1 2 3 4 5 6 7 8\n"), None);
    assert_eq!(h.read_load(STAT2), Some(LoadDelta { busy: 60, total: 200 }));
}

#[test]
fn only_the_first_nine_counters_count() {
    let mut h = LoadListenerHandle::new();
    let stat = "cpu  1 1 1 1 1 1 1 1 1 1000 5000\n";
    assert_eq!(h.read_load(stat), Some(LoadDelta { busy: 7, total: 9 }));
}

#[test]
fn later_cpu_line_is_used_when_first_is_short() {
    let mut h = LoadListenerHandle::new();
    let stat = "cpu  1 2\ncpu  10 0 0 5 5 0 0 0 0 0\n";
    assert_eq!(h.read_load(stat), Some(LoadDelta { busy: 15, total: 20 }));
}

#[test]
fn malformed_counters_are_refused() {
    let h = LoadListenerHandle::new();
    assert!(!h.can_read("cpu  1 2 x 4 5 6 7 8 9 10\n"));
    assert!(!h.can_read("cpu  2147483647 1 0 0 0 0 0 0 0 0\n"));
    assert!(h.can_read("cpu  2147483647 0 0 0 0 0 0 0 0 0\n"));
    assert!(h.can_read("no cpu here\n"));
}

#[test]
fn overflowing_delta_is_refused() {
    let mut h = LoadListenerHandle::new();
    h.read_load("cpu  2147483647 0 0 0 0 0 0 0 0 0\n");
    assert!(!h.can_read("cpu  -5 0 0 0 0 0 0 0 0 0\n"));
    assert!(h.can_read("cpu  5 0 0 0 0 0 0 0 0 0\n"));
}

fn rank(l: LoadLeve) -> u8 {
    match l {
        LoadLeve::Low => 0,
        LoadLeve::Mid => 1,
        LoadLeve::High => 2,
        LoadLeve::Ehight => 3,
    }
}

#[test]
fn load_levels_never_drop_as_load_rises() {
    for a in -128i16..127 {
        assert!(rank(get_load_level(a as i8)) <= rank(get_load_level((a + 1) as i8)));
    }
}
