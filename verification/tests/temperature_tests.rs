use sze_rs::temperature::{
    get_temperature_level, is_cpu_sensor, is_thermal_zone, read_temperature, temp_file_path,
    temperature_is_readable, type_file_path, TemperatureLevel,
};

#[test]
fn reads_thousandths_of_a_degree() {
    assert_eq!(read_temperature("45000\n"), 45);
    assert_eq!(read_temperature("  45999 "), 45);
    assert_eq!(read_temperature("0"), 0);
    assert_eq!(read_temperature("-1500"), -1);
    assert_eq!(read_temperature("-999"), 0);
}

#[test]
fn large_temperatures_wrap_like_as_i8() {
    assert_eq!(read_temperature("200000"), 200i32 as i8);
    assert_eq!(read_temperature("200000"), -56);
    assert_eq!(read_temperature("2147483647"), (2147483647i32 / 1000) as i8);
    assert_eq!(read_temperature("-2147483648"), (-2147483648i32 / 1000) as i8);
}

#[test]
fn unreadable_temperature_text() {
    assert!(!temperature_is_readable(""));
    assert!(!temperature_is_readable("4 5"));
    assert!(!temperature_is_readable("hot"));
    assert!(!temperature_is_readable("2147483648"));
    assert!(temperature_is_readable("\t37000\n"));
}

#[test]
fn temperature_levels_follow_thresholds() {
    assert_eq!(get_temperature_level(-40), TemperatureLevel::Low);
    assert_eq!(get_temperature_level(39), TemperatureLevel::Low);
    assert_eq!(get_temperature_level(40), TemperatureLevel::Mid);
    assert_eq!(get_temperature_level(59), TemperatureLevel::Mid);
    assert_eq!(get_temperature_level(60), TemperatureLevel::High);
    assert_eq!(get_temperature_level(127), TemperatureLevel::High);
}

#[test]
fn thermal_zones_and_cpu_sensors() {
    assert!(is_thermal_zone("/sys/class/thermal/thermal_zone0"));
    assert!(!is_thermal_zone("/sys/class/thermal/cooling_device0"));
    assert!(is_cpu_sensor("mtktscpu\n"));
    assert!(is_cpu_sensor("soc_max\n"));
    assert!(is_cpu_sensor("cpu-1-0-usr\n"));
    assert!(!is_cpu_sensor("battery\n"));
    assert!(!is_cpu_sensor("cpu-0-0-usr\n"));
}

#[test]
fn zone_file_paths() {
    assert_eq!(type_file_path("/sys/class/thermal/thermal_zone1"), "/sys/class/thermal/thermal_zone1/type");
    assert_eq!(temp_file_path("/sys/class/thermal/thermal_zone1"), "/sys/class/thermal/thermal_zone1/temp");
}

fn rank(l: TemperatureLevel) -> u8 {
    match l {
        TemperatureLevel::Low => 0,
        TemperatureLevel::Mid => 1,
        TemperatureLevel::High => 2,
    }
}

#[test]
fn temperature_levels_never_drop_as_it_warms() {
    for a in -128i16..127 {
        assert!(rank(get_temperature_level(a as i8)) <= rank(get_temperature_level((a + 1) as i8)));
    }
}

#[test]
fn digits_read_as_whole_degrees() {
    for n in [0u32, 999, 1000, 37500, 127999] {
        assert_eq!(read_temperature(&n.to_string()) as u32, n / 1000);
    }
}
