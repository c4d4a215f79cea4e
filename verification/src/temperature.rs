//! CPU temperature: finding the thermal zone of the CPU, reading its
//! `temp` file, and the temperature level.

use vstd::prelude::*;

use crate::text::{
    chars_of, contains, contains_seq, decimal_chars, is_digit, join_path, joined,
    lemma_decimal_chars_value, parse_i32, parses_as_i32, signed_digits, signed_value, trim,
    trim_end, trim_start, trimmed, all_white, lemma_trim_around_digits,
};

verus! {

/// How hot the CPU is.
#[derive(Debug, Clone, Copy, PartialEq, Eq, Structural)]
pub enum TemperatureLevel {
    High,
    Low,
    Mid,
}

/// `a / b` rounded toward zero, as Rust's integer division does.
pub open spec fn trunc_div(a: int, b: int) -> int {
    if a >= 0 {
        a / b
    } else {
        -((-a) / b)
    }
}

/// `x` wrapped into the range of an `i8`, as `as i8` does.
pub open spec fn wrap_i8(x: int) -> int {
    (x + 128) % 256 - 128
}

/// The text of a `temp` file can be read: once trimmed it is an `i32`.
pub open spec fn temperature_readable(text: Seq<char>) -> bool {
    parses_as_i32(trim(text))
}

/// The temperature in whole degrees Celsius that the text of a `temp`
/// file, in thousandths of a degree, stands for.
pub open spec fn celsius(text: Seq<char>) -> int {
    trunc_div(signed_value(trim(text)), 1000)
}

/// The level of a temperature in degrees Celsius.
pub open spec fn temperature_level(t: int) -> TemperatureLevel {
    if t < 40 {
        TemperatureLevel::Low
    } else if t < 60 {
        TemperatureLevel::Mid
    } else {
        TemperatureLevel::High
    }
}

/// Whether `read_temperature` accepts `text` (elsewhere the daemon stops).
pub fn temperature_is_readable(text: &str) -> (r: bool)
    ensures
        r == temperature_readable(text@),
{
    let cs = chars_of(text);
    let t = trimmed(&cs);
    parse_i32(&t).is_some()
}

/// The temperature that the text of a `temp` file stands for: its trimmed
/// value in thousandths of a degree, divided by 1000 toward zero, and
/// wrapped into an `i8`.
pub fn read_temperature(text: &str) -> (r: i8)
    requires
        temperature_readable(text@),
    ensures
        r as int == wrap_i8(celsius(text@)),
        r == celsius(text@) as i8,
{
    let cs = chars_of(text);
    let t = trimmed(&cs);
    let v = match parse_i32(&t) {
        Some(v) => v as i64,
        None => 0,
    };
    let q: i64 = if v >= 0 {
        v / 1000
    } else {
        0 - ((0 - v) / 1000)
    };
    assert(q == celsius(text@));
    assert(-2147483 <= q <= 2147483);
    let r = q as i8;
    assert(r as int == (q + 128) % 256 - 128) by (bit_vector)
        requires
            r == q as i8,
            -2147483 <= q <= 2147483,
    ;
    r
}

/// The level of a temperature in degrees Celsius.
pub fn get_temperature_level(t: i8) -> (r: TemperatureLevel)
    ensures
        r == temperature_level(t as int),
{
    if t < 40 {
        TemperatureLevel::Low
    } else if t < 60 {
        TemperatureLevel::Mid
    } else {
        TemperatureLevel::High
    }
}

/// Whether the path of a directory under `/sys/class/thermal` names a
/// thermal zone: it contains `thermal_zone`.
pub fn is_thermal_zone(path: &str) -> (r: bool)
    ensures
        r == contains(path@, "thermal_zone"@),
{
    let p = chars_of(path);
    let needle = chars_of("thermal_zone");
    contains_seq(&p, &needle)
}

/// Whether the text of a thermal zone's `type` file names a CPU sensor: it
/// contains `mtktscpu`, `soc_max` or `cpu-1-`.
pub fn is_cpu_sensor(kind: &str) -> (r: bool)
    ensures
        r == (contains(kind@, "mtktscpu"@) || contains(kind@, "soc_max"@) || contains(
            kind@,
            "cpu-1-"@,
        )),
{
    let k = chars_of(kind);
    contains_seq(&k, &chars_of("mtktscpu")) || contains_seq(&k, &chars_of("soc_max"))
        || contains_seq(&k, &chars_of("cpu-1-"))
}

/// The `type` file of a thermal zone.
pub fn type_file_path(zone: &str) -> (r: String)
    ensures
        r@ == joined(zone@, "type"@),
{
    join_path(zone, "type")
}

/// The `temp` file of a thermal zone.
pub fn temp_file_path(zone: &str) -> (r: String)
    ensures
        r@ == joined(zone@, "temp"@),
{
    join_path(zone, "temp")
}


/// The order of the temperature levels, from the coolest.
pub open spec fn temperature_rank(l: TemperatureLevel) -> int {
    match l {
        TemperatureLevel::Low => 0,
        TemperatureLevel::Mid => 1,
        TemperatureLevel::High => 2,
    }
}

/// A higher temperature never gets a lower level.
pub proof fn lemma_temperature_level_monotone(a: int, b: int)
    requires
        a <= b,
    ensures
        temperature_rank(temperature_level(a)) <= temperature_rank(temperature_level(b)),
{
}

/// Where the temperature lies within what an `i8` holds, the reading is
/// the temperature itself: no wrapping happens.
pub proof fn lemma_celsius_in_range(text: Seq<char>)
    requires
        -128 <= celsius(text) <= 127,
    ensures
        wrap_i8(celsius(text)) == celsius(text),
{
}


/// A `temp` file that holds the decimal digits of `n` thousandths of a
/// degree reads as `n / 1000` whole degrees.
pub proof fn lemma_temperature_of_digits(n: nat)
    requires
        n <= i32::MAX,
    ensures
        temperature_readable(decimal_chars(n)),
        celsius(decimal_chars(n)) == n / 1000,
{
    let s = decimal_chars(n);
    lemma_decimal_chars_value(n);
    assert(is_digit(s[0]));
    assert(is_digit(s.last()));
    assert(trim_start(s) == s);
    assert(trim_end(s) == s);
    assert(signed_digits(s) == s);
}


/// Whitespace around the digits of a `temp` file (the kernel ends it with
/// a newline) does not change the reading: `n` thousandths of a degree
/// read as `n / 1000` whole degrees, whatever whitespace surrounds them.
pub proof fn lemma_temperature_ignores_whitespace(a: Seq<char>, n: nat, b: Seq<char>)
    requires
        n <= i32::MAX,
        all_white(a),
        all_white(b),
    ensures
        temperature_readable(a + decimal_chars(n) + b),
        celsius(a + decimal_chars(n) + b) == n / 1000,
{
    let d = decimal_chars(n);
    lemma_decimal_chars_value(n);
    lemma_trim_around_digits(a, d, b);
    assert(is_digit(d[0]));
    assert(signed_digits(d) == d);
}

} // verus!
