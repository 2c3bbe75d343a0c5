use streaming_bench::binary64::Binary64;
use streaming_bench::elapsed::Elapsed;
use streaming_bench::metrics::format_bytes;
use streaming_bench::text::{decimal_string, fixed_string};
use std::time::Duration;

/// A fixed sequence of varied integers.
struct Mixer {
    state: u64,
}

impl Mixer {
    fn next(&mut self) -> u64 {
        self.state = self.state.wrapping_add(0x9e37_79b9_7f4a_7c15);
        let mut z = self.state;
        z = (z ^ (z >> 30)).wrapping_mul(0xbf58_476d_1ce4_e5b9);
        z = (z ^ (z >> 27)).wrapping_mul(0x94d0_49bb_1331_11eb);
        z ^ (z >> 31)
    }

    /// An integer of any length.
    fn any_length(&mut self) -> u64 {
        let shift = self.next() % 64;
        self.next() >> shift
    }
}

fn host(x: Binary64) -> f64 {
    f64::from_bits(x.to_bits())
}

fn number(x: f64) -> Binary64 {
    Binary64::from_bits(x.to_bits()).unwrap()
}

fn readable(bytes: u64) -> String {
    let mib = 1024.0 * 1024.0;
    if bytes >= 1024 * 1024 * 1024 {
        format!("{:.1} GiB", bytes as f64 / (1024.0 * mib))
    } else if bytes >= 1024 * 1024 {
        format!("{:.1} MiB", bytes as f64 / mib)
    } else if bytes >= 1024 {
        format!("{:.1} KiB", bytes as f64 / 1024.0)
    } else {
        format!("{} B", bytes)
    }
}

#[test]
fn integers_round_as_the_hardware_rounds_them() {
    let mut mixer = Mixer { state: 1 };
    for _ in 0..20_000 {
        let v = mixer.any_length();
        assert_eq!(host(Binary64::from_u64(v)).to_bits(), (v as f64).to_bits());
        assert_eq!(host(Binary64::single_from_u64(v)).to_bits(), f64::from(v as f32).to_bits());
    }
    assert_eq!(host(Binary64::from_u64(u64::MAX)), 18446744073709551616.0);
    assert_eq!(host(Binary64::from_u64((1 << 53) + 1)), 9007199254740992.0);
    assert_eq!(host(Binary64::from_u64((1 << 53) + 3)), 9007199254740996.0);
    assert_eq!(host(Binary64::from_u64(0)), 0.0);
}

#[test]
fn arithmetic_agrees_with_the_hardware() {
    let mut mixer = Mixer { state: 2 };
    for _ in 0..20_000 {
        let scale = 2f64.powi((mixer.next() % 300) as i32 - 150);
        let a = mixer.any_length() as f64 * scale;
        let b = mixer.any_length() as f64 + 1.0;
        let (x, y) = (number(a), number(b));
        assert_eq!(host(x.plus(y)).to_bits(), (a + b).to_bits());
        assert_eq!(host(y.plus(x)).to_bits(), (a + b).to_bits());
        assert_eq!(host(x.times(y)).to_bits(), (a * b).to_bits());
        assert_eq!(host(x.divided_by(y)).to_bits(), (a / b).to_bits());
        assert_eq!(x.is_at_most(&y), a <= b);
        assert_eq!(x.to_u64(), a as u64);
        assert_eq!(x.to_bits(), a.to_bits());
    }
}

#[test]
fn single_precision_agrees_with_the_hardware() {
    let mut mixer = Mixer { state: 3 };
    for _ in 0..20_000 {
        let scale = 2f32.powi((mixer.next() % 60) as i32 - 40);
        let a = mixer.any_length() as f32 * scale;
        let b = mixer.any_length() as f32 + 1.0;
        let (x, y) = (number(f64::from(a)), number(f64::from(b)));
        assert_eq!(host(x.plus_single(y)).to_bits(), f64::from(a + b).to_bits());
        assert_eq!(host(x.divided_by_single(y)).to_bits(), f64::from(a / b).to_bits());
    }
}

#[test]
fn subnormal_numbers_round_too() {
    let tiny = f64::from_bits(3);
    let x = number(tiny);
    assert_eq!(host(x.divided_by(Binary64::from_u64(2))).to_bits(), (tiny / 2.0).to_bits());
    assert_eq!(host(x.plus(x)).to_bits(), (tiny + tiny).to_bits());
    assert_eq!(host(x.times(Binary64::from_u64(5))).to_bits(), (tiny * 5.0).to_bits());
    let least = f32::from_bits(1);
    let y = number(f64::from(least));
    assert_eq!(
        host(y.divided_by_single(Binary64::from_u64(2))).to_bits(),
        f64::from(least / 2.0).to_bits()
    );
    assert!(Binary64::from_u64(0).is_zero());
}

#[test]
fn bit_patterns_are_in_the_order_of_the_numbers() {
    let mut xs = vec![0.0, f64::MIN_POSITIVE / 4.0, f64::MIN_POSITIVE, 0.1, 1.0, 1e300, f64::MAX];
    xs.push(1.0 + f64::EPSILON);
    for &a in &xs {
        assert_eq!(host(number(a)), a);
        for &b in &xs {
            assert_eq!(number(a).is_at_most(&number(b)), a <= b);
            assert_eq!(number(a).to_bits() <= number(b).to_bits(), a <= b);
        }
    }
}

#[test]
fn bit_patterns_of_what_is_no_number_are_refused() {
    assert!(Binary64::from_bits(f64::INFINITY.to_bits()).is_none());
    assert!(Binary64::from_bits(f64::NAN.to_bits()).is_none());
    assert!(Binary64::from_bits((-1.0f64).to_bits()).is_none());
    assert_eq!(Binary64::from_bits(f64::MAX.to_bits()).unwrap().to_bits(), f64::MAX.to_bits());
}

#[test]
fn fixed_text_agrees_with_the_standard_formatter() {
    let mut mixer = Mixer { state: 4 };
    for _ in 0..20_000 {
        let v = mixer.any_length();
        let x = Binary64::from_u64(v).divided_by(Binary64::from_u64(1000));
        let f = v as f64 / 1000.0;
        assert_eq!(fixed_string(&x, 1), format!("{:.1}", f));
        assert_eq!(fixed_string(&x, 2), format!("{:.2}", f));
        assert_eq!(fixed_string(&x, 3), format!("{:.3}", f));
    }
    for v in 0..3000u64 {
        let f = v as f64 / 16.0;
        assert_eq!(fixed_string(&number(f), 2), format!("{:.2}", f));
        let f = v as f64 * 1e-70;
        assert_eq!(fixed_string(&number(f), 2), format!("{:.2}", f));
        let f = v as f64 * 1e200;
        assert_eq!(fixed_string(&number(f), 2), format!("{:.2}", f));
    }
}

#[test]
fn fixed_text_of_ties_goes_to_even() {
    assert_eq!(fixed_string(&number(0.125), 2), "0.12");
    assert_eq!(fixed_string(&number(0.375), 2), "0.38");
    assert_eq!(fixed_string(&number(2.5), 1), "2.5");
    assert_eq!(fixed_string(&number(0.25), 1), "0.2");
    assert_eq!(fixed_string(&number(1.005), 2), "1.00");
    assert_eq!(fixed_string(&number(1.115), 2), "1.11");
    assert_eq!(fixed_string(&number(0.0), 3), "0.000");
}

#[test]
fn decimal_text() {
    assert_eq!(decimal_string(0), "0");
    assert_eq!(decimal_string(10), "10");
    assert_eq!(decimal_string(u64::MAX), "18446744073709551615");
}

#[test]
fn sizes_are_written_in_the_largest_fitting_unit() {
    assert_eq!(format_bytes(0), "0 B");
    assert_eq!(format_bytes(1023), "1023 B");
    assert_eq!(format_bytes(1024), "1.0 KiB");
    assert_eq!(format_bytes(1280), "1.2 KiB");
    assert_eq!(format_bytes(1536), "1.5 KiB");
    assert_eq!(format_bytes(1024 * 1024 - 1), "1024.0 KiB");
    assert_eq!(format_bytes(1024 * 1024), "1.0 MiB");
    assert_eq!(format_bytes(3 * 1024 * 1024 * 1024), "3.0 GiB");
    let mut mixer = Mixer { state: 5 };
    for _ in 0..20_000 {
        let v = mixer.any_length();
        assert_eq!(format_bytes(v), readable(v));
    }
    assert_eq!(format_bytes(u64::MAX), readable(u64::MAX));
}

#[test]
fn elapsed_time_agrees_with_durations() {
    let mut mixer = Mixer { state: 6 };
    for _ in 0..20_000 {
        let secs = mixer.any_length();
        let nanos = (mixer.any_length() % 1_000_000_000) as u32;
        let bytes = mixer.any_length();
        let d = Duration::new(secs, nanos);
        let e = Elapsed { secs, nanos };
        assert_eq!(host(e.as_seconds()).to_bits(), d.as_secs_f64().to_bits());
        assert_eq!(host(e.as_milliseconds()).to_bits(), (d.as_secs_f64() * 1000.0).to_bits());
        assert_eq!(e.as_microseconds(), d.as_micros() as u64);
        if secs > 0 || nanos > 0 {
            let kbps = ((bytes as f64 * 8.0) / d.as_secs_f64() / 1000.0) as u64;
            assert_eq!(e.as_kilobit_rate(bytes), Some(kbps));
            let mbps = (bytes as f64 * 8.0) / d.as_secs_f64() / 1_000_000.0;
            assert_eq!(host(e.as_megabit_rate(bytes)).to_bits(), mbps.to_bits());
        }
    }
    let nothing = Elapsed { secs: 0, nanos: 0 };
    assert_eq!(nothing.as_kilobit_rate(1), None);
    assert!(nothing.as_megabit_rate(1).is_zero());
}
