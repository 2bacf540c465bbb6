use bms_rs::bms::{Bms, SectionLenChangeObj, SpeedObj};
use bms_rs::event::YCoordinate;
use bms_rs::num::{NonNegativeF64, PositiveF64};
use bms_rs::ordered::{OrderKey, OrderedMap};
use bms_rs::position::ByPosition;
use bms_rs::sorting::sort_by_position;
use bms_rs::time::{ObjTime, Track};
use bms_rs::timeline::calculate_cumulative_times;
use bms_rs::event::Seconds;
use bms_rs::y_memo::YMemo;

fn non_negative(x: f64) -> NonNegativeF64 {
    NonNegativeF64::from_bits(x.to_bits()).unwrap()
}

fn positive(x: f64) -> PositiveF64 {
    PositiveF64::from_bits(x.to_bits()).unwrap()
}

fn y(x: f64) -> YCoordinate {
    YCoordinate(non_negative(x))
}

fn at(track: u64, numerator: u64, denominator: u64) -> ObjTime {
    ObjTime::new(Track(track), numerator, denominator).unwrap()
}

fn with_lengths(lengths: &[(u64, f64)]) -> Bms {
    let mut bms = Bms::default();
    for (track, length) in lengths {
        let track = Track(*track);
        bms.section_len
            .section_len_changes
            .insert(track, SectionLenChangeObj { track, length: non_negative(*length) });
    }
    bms
}

#[test]
fn tracks_start_at_their_numbers_by_default() {
    let memo = YMemo::new(&Bms::default());
    assert_eq!(memo.get_section_start_y(Track(0)), y(0.0));
    assert_eq!(memo.get_section_start_y(Track(7)), y(7.0));
    assert_eq!(memo.get_y(at(7, 0, 1)), y(7.0));
    assert_eq!(memo.get_y(at(7, 3, 4)), y(7.75));
}

#[test]
fn own_lengths_move_the_later_tracks() {
    let memo = YMemo::new(&with_lengths(&[(1, 0.5), (3, 2.0)]));
    let starts: Vec<YCoordinate> = (0..6).map(|t| memo.get_section_start_y(Track(t))).collect();
    assert_eq!(starts, vec![y(0.0), y(1.0), y(1.5), y(2.5), y(4.5), y(5.5)]);
    assert_eq!(memo.get_y(at(1, 1, 2)), y(1.25));
    assert_eq!(memo.get_y(at(3, 1, 4)), y(3.0));
}

#[test]
fn a_track_without_length_gathers_its_objects() {
    let memo = YMemo::new(&with_lengths(&[(2, 0.0)]));
    assert!(memo.is_zero_length(Track(2)));
    assert!(!memo.is_zero_length(Track(1)));
    assert_eq!(memo.get_y(at(2, 0, 1)), y(2.0));
    assert_eq!(memo.get_y(at(2, 7, 8)), y(2.0));
    assert_eq!(memo.get_y(at(3, 0, 1)), y(2.0));
}

#[test]
fn the_spacing_multiplies_positions() {
    let mut bms = Bms::default();
    let time = at(1, 1, 2);
    bms.speed.speed_factor_changes.insert(time, SpeedObj { time, factor: positive(2.0) });
    let memo = YMemo::new(&bms);
    assert_eq!(memo.get_y(at(1, 1, 4)), y(1.25));
    assert_eq!(memo.get_y(at(1, 1, 2)), y(3.0));
    assert_eq!(memo.get_section_start_y(Track(1)), y(1.0));
    assert_eq!(memo.get_section_start_y(Track(2)), y(4.0));
}

#[test]
fn the_spacing_of_a_track_without_length_is_that_of_its_start() {
    let mut bms = with_lengths(&[(2, 0.0)]);
    let time = at(2, 1, 2);
    bms.speed.speed_factor_changes.insert(time, SpeedObj { time, factor: positive(3.0) });
    let memo = YMemo::new(&bms);
    assert_eq!(memo.get_y(at(2, 3, 4)), y(2.0));
    assert_eq!(memo.get_spread_y(at(2, 3, 4)), y(6.0));
}

#[test]
fn positions_without_a_number_are_the_largest() {
    let memo = YMemo::new(&with_lengths(&[(0, f64::MAX), (1, f64::MAX), (2, f64::MAX)]));
    assert_eq!(memo.get_section_start_y(Track(1)), y(f64::MAX));
    assert_eq!(memo.get_section_start_y(Track(3)), y(f64::MAX));
    assert_eq!(memo.get_y(at(1, 3, 2)), y(f64::MAX));
    let mut bms = Bms::default();
    let time = at(0, 0, 1);
    bms.speed.speed_factor_changes.insert(time, SpeedObj { time, factor: positive(1e308) });
    let memo = YMemo::new(&bms);
    assert_eq!(memo.get_section_start_y(Track(1)), y(1e308));
    assert_eq!(memo.get_section_start_y(Track(20)), y(f64::MAX));
}

#[test]
fn sorting_keeps_the_order_at_a_position() {
    let sorted = sort_by_position(vec![(y(2.0), 'a'), (y(0.5), 'b'), (y(2.0), 'c'), (y(0.5), 'd')]);
    assert_eq!(sorted, vec![(y(0.5), 'b'), (y(0.5), 'd'), (y(2.0), 'a'), (y(2.0), 'c')]);
}

#[test]
fn lists_are_kept_by_position() {
    let mut lists: ByPosition<char> = ByPosition::new();
    assert_eq!(lists.last_position(), None);
    lists.push(y(2.0), 'a');
    lists.push(y(1.0), 'b');
    lists.push(y(2.0), 'c');
    let copy = lists.duplicate();
    lists.push(y(1.5), 'd');
    assert_eq!(lists.len(), 3);
    assert_eq!(lists.position(1), y(1.5));
    assert_eq!(*lists.list(2), vec!['a', 'c']);
    assert_eq!(lists.last_position(), Some(y(2.0)));
    assert_eq!(copy.len(), 2);
    assert_eq!(*copy.list(0), vec!['b']);
}

#[test]
fn maps_look_up_by_order() {
    let mut map: OrderedMap<Track, char> = OrderedMap::new();
    map.insert(Track(5), 'e');
    map.insert(Track(1), 'a');
    map.insert(Track(3), 'x');
    map.insert(Track(3), 'c');
    let entries: Vec<(u64, char)> = map.entries().iter().map(|e| (e.0.0, e.1)).collect();
    assert_eq!(entries, vec![(1, 'a'), (3, 'c'), (5, 'e')]);
    assert_eq!(map.get(Track(3)), Some(&'c'));
    assert_eq!(map.get(Track(2)), None);
    assert_eq!(map.last_before(Track(3)), Some(&'a'));
    assert_eq!(map.last_up_to(Track(3)), Some(&'c'));
    assert_eq!(map.last_before(Track(1)), None);
    assert_eq!(map.last_up_to(Track(9)), Some(&'e'));
    assert_eq!(map.last_key(), Some(Track(5)));
}

#[test]
fn times_are_ordered_by_track_and_fraction() {
    assert!(at(1, 7, 8).is_below(&at(2, 0, 1)));
    assert!(at(1, 1, 3).is_below(&at(1, 1, 2)));
    assert!(!at(1, 2, 4).is_below(&at(1, 1, 2)));
    assert!(!at(1, 1, 2).is_below(&at(1, 2, 4)));
    assert!(ObjTime::new(Track(1), 1, 0).is_none());
}

#[test]
fn times_add_up_from_point_to_point() {
    let mut points: OrderedMap<YCoordinate, ()> = OrderedMap::new();
    for point in [0.0, 0.5, 1.0, 2.0] {
        points.insert(y(point), ());
    }
    let times = calculate_cumulative_times(
        &points,
        positive(60.0),
        &vec![(y(1.0), positive(120.0))],
        &vec![(y(0.0), non_negative(1.0)), (y(0.75), non_negative(2.0)), (y(1.0), non_negative(2.0))],
    );
    let found: Vec<(YCoordinate, f64)> = times
        .iter()
        .map(|(y, time)| match time {
            Seconds::Finite(seconds) => (*y, f64::from_bits(seconds.to_bits())),
            Seconds::Infinite => (*y, f64::INFINITY),
        })
        .collect();
    assert_eq!(found, vec![(y(0.0), 0.0), (y(0.5), 3.0), (y(1.0), 7.0), (y(2.0), 10.0)]);
}

#[test]
fn positions_grow_with_time() {
    let memo = YMemo::new(&with_lengths(&[(1, 0.5), (2, 0.0), (4, 1.75)]));
    let mut times = Vec::new();
    for track in 0..7 {
        for numerator in 0..8 {
            times.push(at(track, numerator, 8));
        }
    }
    for pair in times.windows(2) {
        let (a, b) = (pair[0], pair[1]);
        assert!(!memo.get_y(b).is_below(&memo.get_y(a)));
        if a.track() == b.track() && !memo.is_zero_length(a.track()) {
            assert!(memo.get_y(a).is_below(&memo.get_y(b)));
        }
        let next = Track(a.track().0 + 1);
        assert!(!memo.get_y(a).is_below(&memo.get_section_start_y(a.track())));
        assert!(!memo.get_section_start_y(next).is_below(&memo.get_y(a)));
    }
}

#[test]
fn measures_meet_up_to_rounding() {
    let lengths = [0.1, 0.0, 0.7, 1.3, 0.3];
    let indexed: Vec<(u64, f64)> =
        lengths.iter().enumerate().map(|(i, length)| (i as u64, *length)).collect();
    let memo = YMemo::new(&with_lengths(&indexed));
    let start = |track: u64| f64::from_bits(memo.get_section_start_y(Track(track)).0.to_bits());
    assert_eq!(start(0), 0.0);
    for (i, length) in lengths.iter().enumerate() {
        let gap = start(i as u64 + 1) - start(i as u64) - length;
        assert!(gap.abs() < 1e-14, "{gap:e}");
    }
}

#[test]
fn positions_without_spacing() {
    let mut bms = with_lengths(&[(2, 0.0)]);
    let time = at(0, 0, 1);
    bms.speed.speed_factor_changes.insert(time, SpeedObj { time, factor: positive(4.0) });
    let memo = YMemo::new(&bms);
    assert_eq!(memo.get_y(at(1, 1, 2)), y(6.0));
    assert_eq!(memo.get_unspaced_y(at(1, 1, 2)), y(1.5));
    assert_eq!(memo.get_unspaced_y(at(2, 1, 2)), y(2.0));
    assert_eq!(memo.get_unspaced_start_y(Track(3)), y(2.0));
    assert_eq!(memo.unspaced().get_y(at(1, 1, 2)), y(1.5));
}

#[test]
fn thirds_of_a_track_stand_apart() {
    let memo = YMemo::new(&with_lengths(&[(1, 0.7)]));
    for track in 0..300 {
        for denominator in [3, 7, 48, 192] {
            for numerator in 0..denominator {
                let a = memo.get_y(at(track, numerator, denominator));
                let b = memo.get_y(at(track, numerator + 1, denominator));
                assert!(a.is_below(&b));
            }
        }
        let near = memo.get_y(at(track, 63, 191));
        let far = memo.get_y(at(track, 64, 192));
        assert!(near.is_below(&far));
    }
    assert_eq!(memo.get_y(at(0, 1, 3)), y(1.0 / 3.0));
}

#[test]
fn large_numerators_and_denominators_are_rounded() {
    let memo = YMemo::new(&Bms::default());
    let earlier = at(0, (1 << 53) + 3, (1 << 54) + 2);
    let later = at(0, (1 << 52) + 1, 1 << 53);
    assert!(earlier.is_below(&later));
    assert!(memo.get_y(later).is_below(&memo.get_y(earlier)));
    let shared = (1 << 54) + 2;
    let (a, b) = (at(0, (1 << 53) + 1, shared), at(0, (1 << 53) + 3, shared));
    assert!(!memo.get_y(b).is_below(&memo.get_y(a)));
}

#[test]
fn no_track_starts_before_zero() {
    let lengths: Vec<(u64, f64)> = (0..40).map(|track| (track, 0.0)).collect();
    let memo = YMemo::new(&with_lengths(&lengths));
    for track in 0..=40 {
        assert_eq!(memo.get_section_start_y(Track(track)), y(0.0));
    }
    assert_eq!(memo.get_section_start_y(Track(41)), y(1.0));
}

#[test]
fn later_lengths_do_not_move_a_track() {
    let memo = YMemo::new(&with_lengths(&[(0, 0.3), (2, 5.0)]));
    let other = YMemo::new(&with_lengths(&[(0, 0.3), (2, 0.25), (3, 9.0)]));
    assert_eq!(memo.get_section_start_y(Track(2)), other.get_section_start_y(Track(2)));
    assert_ne!(memo.get_section_start_y(Track(3)), other.get_section_start_y(Track(3)));
}
