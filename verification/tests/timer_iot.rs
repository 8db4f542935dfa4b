use qpp_rng::iot::add;
use qpp_rng::mock_clock::MockClock;
use qpp_rng::timer::{calibrate_resolution, normalize_tick, resolution_from_ticks, HighResTimer, PlatformTimer};

fn busy_loop() -> u64 {
    let mut acc: u64 = 0;
    for i in 0..500_000u64 {
        acc = acc.wrapping_add(i);
    }
    core::hint::black_box(acc);
    acc
}

#[test]
fn platform_timer_ticks_forward() {
    let mut timer = PlatformTimer::new();
    let _k = timer.init();
    let a = timer.tick();
    let acc = busy_loop();
    core::hint::black_box(acc);
    let b = timer.tick();
    assert!(b.wrapping_sub(a) > 0, "tick() did not advance: a={a}, b={b}");
}

#[test]
fn platform_timer_ticks_normalize() {
    let mut timer = PlatformTimer::new();
    let k = timer.init();
    let a = timer.tick();
    let acc = busy_loop();
    core::hint::black_box(acc);
    let b = timer.tick();
    let dif = b.wrapping_sub(a);
    let _norm = normalize_tick(dif, k);
}

#[test]
fn calibrate_resolution_measures_a_plausible_k() {
    let mut timer = PlatformTimer::new();
    let nominal = timer.init();
    let measured = calibrate_resolution(&mut timer, 256, nominal);
    assert!(measured >= 1);
}

#[test]
fn normalize_tick_divides_by_k_and_keeps_the_low_byte() {
    assert_eq!(normalize_tick(1000, 1), (1000u64 % 256) as u8);
    assert_eq!(normalize_tick(1000, 10), 100);
    assert_eq!(normalize_tick(0x1_0005 * 3, 3), 5);
}

#[test]
fn resolution_from_ticks_takes_the_smallest_nonzero_step() {
    assert_eq!(resolution_from_ticks(&[0, 10, 10, 14, 30], 9), 4);
    assert_eq!(resolution_from_ticks(&[5, 5, 5], 9), 9);
    assert_eq!(resolution_from_ticks(&[0, 1000], 9), 255);
}

#[test]
fn a_full_wraparound_step_is_an_advance_not_a_frozen_counter() {
    // 1 then 0 is a step of u64::MAX (mod 2^64): the counter moved.
    assert_eq!(resolution_from_ticks(&[1, 0], 9), 255);
    assert_eq!(resolution_from_ticks(&[1, 0, 0], 0), 255);
    assert_eq!(resolution_from_ticks(&[7], 0), 1);
}

#[test]
fn calibrate_resolution_examples_on_mock_clocks() {
    assert_eq!(calibrate_resolution(&mut MockClock::new(vec![7]), 4, 50), 7);
    assert_eq!(calibrate_resolution(&mut MockClock::new(vec![1000]), 4, 50), 255);
    assert_eq!(calibrate_resolution(&mut MockClock::new(vec![0]), 4, 0), 1);
    assert_eq!(calibrate_resolution(&mut MockClock::new(vec![0]), 4, 9), 9);
    assert_eq!(calibrate_resolution(&mut MockClock::new(vec![7]), 0, 9), 9);
}

#[test]
fn calibrate_resolution_on_a_scripted_clock() {
    let mut clock = MockClock::new(vec![3]);
    assert_eq!(calibrate_resolution(&mut clock, 16, 7), 3);
}

#[test]
fn it_works() {
    let result = add(2, 2);
    assert_eq!(result, 4);
}

#[test]
fn mock_clock_readings_follow_the_script() {
    let mut clock = MockClock::new(vec![7, 13, 5]);
    let readings: Vec<u64> = (0..7).map(|_| clock.tick()).collect();
    assert_eq!(readings, vec![0, 7, 7, 20, 20, 25, 25]);
}
