use marklang::cell::{ProbCell, Probability};
use marklang::source::RandomSource;
use marklang::text::{symbols, window};
use marklang::walk::reaches;

#[test]
fn a_share_is_count_over_total() {
    assert_eq!(Probability::of(3, 7), Probability { numer: 3, denom: 7 });
    assert_eq!(Probability::of(0, 7), Probability { numer: 0, denom: 7 });
    assert_eq!(Probability::of(7, 7), Probability { numer: 7, denom: 7 });
}

#[test]
fn a_row_never_seen_gives_probability_zero() {
    assert_eq!(Probability::of(0, 0), Probability { numer: 0, denom: 0 });
    assert_eq!(Probability::of(5, 0), Probability::zero());
    assert_eq!(Probability::zero(), Probability { numer: 0, denom: 0 });
}

#[test]
fn rescaling_keeps_the_count() {
    let cell = ProbCell { prob: Probability::zero(), count: 4 };
    assert_eq!(cell.rescaled(5), ProbCell { prob: Probability { numer: 4, denom: 5 }, count: 4 });
    assert_eq!(cell.rescaled(0), ProbCell { prob: Probability { numer: 0, denom: 0 }, count: 4 });
}

#[test]
fn a_target_is_reached_at_or_above_its_fraction() {
    // 1/2 against targets around half the scale
    assert!(reaches(1, 2, 0));
    assert!(reaches(1, 2, 0x8000_0000));
    assert!(!reaches(1, 2, 0x8000_0001));
    // the whole row reaches every target
    assert!(reaches(9, 9, u32::MAX));
    // nothing accumulated reaches only the target zero
    assert!(reaches(0, 9, 0));
    assert!(!reaches(0, 9, 1));
    // probability zero
    assert!(reaches(0, 0, 0));
    assert!(!reaches(3, 0, 1));
    // large numbers do not wrap
    assert!(reaches(usize::MAX, usize::MAX, u32::MAX));
    assert!(!reaches(usize::MAX / 2, usize::MAX, u32::MAX));
}

#[test]
fn symbols_and_windows_of_a_text() {
    let chars = symbols("héllo");
    assert_eq!(chars, vec!['h', 'é', 'l', 'l', 'o']);
    assert_eq!(window(&chars, 0, 2), "hé".to_owned());
    assert_eq!(window(&chars, 1, 3), "éll".to_owned());
    assert_eq!(window(&chars, 5, 0), String::new());
    assert!(symbols("").is_empty());
}

#[test]
fn a_seeded_source_repeats_its_stream() {
    let mut a = RandomSource::seeded(99);
    let mut b = RandomSource::seeded(99);
    let mut c = RandomSource::seeded(100);
    let from_a: Vec<u64> = (0..8).map(|_| a.next_u64()).collect();
    let from_b: Vec<u64> = (0..8).map(|_| b.next_u64()).collect();
    let from_c: Vec<u64> = (0..8).map(|_| c.next_u64()).collect();
    assert_eq!(from_a, from_b);
    assert_ne!(from_a, from_c);
    assert_eq!(a.next_u32(), b.next_u32());
    assert!(matches!(a, RandomSource::Seeded(_)));
}

#[test]
fn the_thread_source_hands_out_numbers() {
    let mut source = RandomSource::thread();
    let drawn: Vec<u64> = (0..16).map(|_| source.next_u64()).collect();
    assert!(drawn.iter().any(|&x| x != drawn[0]));
    let small: Vec<u32> = (0..16).map(|_| source.next_u32()).collect();
    assert!(small.iter().any(|&x| x != small[0]));
    assert!(matches!(source, RandomSource::Thread(_)));
}
