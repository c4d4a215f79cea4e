use sze_rs::freq::{
    available_frequencies_path, freq_list_is_readable, parse_freq_list, FreqInfo,
    PolicyInfo,
};

const POLICY: &str = "/sys/devices/system/cpu/cpufreq/policy0";

#[test]
fn parses_available_frequencies() {
    assert_eq!(parse_freq_list("300000 576000 1804800\n"), vec![300000, 576000, 1804800]);
    assert_eq!(parse_freq_list(""), Vec::<usize>::new());
    assert_eq!(parse_freq_list("  \n"), Vec::<usize>::new());
    assert_eq!(parse_freq_list("+5\t6"), vec![5, 6]);
}

#[test]
fn unreadable_frequency_lists() {
    assert!(!freq_list_is_readable("300000 abc"));
    assert!(!freq_list_is_readable("-1"));
    assert!(!freq_list_is_readable("99999999999999999999999"));
    assert!(freq_list_is_readable("1 2 3"));
}

#[test]
fn policy_files() {
    assert_eq!(
        available_frequencies_path(POLICY),
        "/sys/devices/system/cpu/cpufreq/policy0/scaling_available_frequencies"
    );
    let info = FreqInfo::new(POLICY, Some("300000 1804800\n"));
    assert_eq!(info.policy_path, POLICY);
    assert_eq!(info.max_freq_file, "/sys/devices/system/cpu/cpufreq/policy0/scaling_max_freq");
    assert_eq!(info.min_freq_file, "/sys/devices/system/cpu/cpufreq/policy0/scaling_min_freq");
    assert_eq!(info.freq_list, vec![300000, 1804800]);
}

#[test]
fn unreadable_frequency_file_gives_empty_list() {
    let info = FreqInfo::new(POLICY, None);
    assert!(info.freq_list.is_empty());
}

#[test]
fn frequency_writes() {
    let info = FreqInfo::new(POLICY, None);
    let w = info.max_freq_write(1804800);
    assert_eq!(w.file, info.max_freq_file);
    assert_eq!(w.content, "1804800");
    let w = info.min_freq_write(300000);
    assert_eq!(w.file, info.min_freq_file);
    assert_eq!(w.content, "300000");
}

#[test]
fn written_frequency_reads_back() {
    let info = FreqInfo::new(POLICY, None);
    for f in [0usize, 9, 10, 300000, usize::MAX] {
        assert_eq!(parse_freq_list(&info.max_freq_write(f).content), vec![f]);
        assert_eq!(parse_freq_list(&info.min_freq_write(f).content), vec![f]);
    }
}

#[test]
fn every_policy_goes_under_key_one() {
    let infos = vec![
        FreqInfo::new("/p/policy0", Some("1 2")),
        FreqInfo::new("/p/policy4", Some("3 4")),
        FreqInfo::new("/p/policy7", Some("5")),
    ];
    let p = PolicyInfo::new(infos);
    assert_eq!(p.len(), 1);
    assert!(p.get(0).is_none());
    let last = p.get(1).unwrap();
    assert_eq!(last.policy_path, "/p/policy7");
    assert_eq!(last.freq_list, vec![5]);
}

#[test]
fn no_policy_no_entry() {
    let p = PolicyInfo::new(Vec::new());
    assert_eq!(p.len(), 0);
    assert!(p.get(1).is_none());
}
