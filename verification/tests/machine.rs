use artisan::machine::{cpu_brand_from, os_description_from, total_memory_from};

#[test]
fn cpu_brand_reads_first_model_name() {
    let info = "processor\t: 0\nvendor_id\t: GenuineIntel\nmodel name\t: Intel(R) Xeon(R) CPU @ 2.20GHz\nflags\t: fpu\nmodel name\t: Other\n";
    assert_eq!(cpu_brand_from(Some(info)), "Intel(R) Xeon(R) CPU @ 2.20GHz");
}

#[test]
fn cpu_brand_takes_text_up_to_next_colon() {
    assert_eq!(cpu_brand_from(Some("model name : A:B\n")), "A");
}

#[test]
fn cpu_brand_drops_carriage_return() {
    assert_eq!(cpu_brand_from(Some("model name:  X Y \r\n")), "X Y");
}

#[test]
fn cpu_brand_unknown_cases() {
    assert_eq!(cpu_brand_from(None), "unknown");
    assert_eq!(cpu_brand_from(Some("processor: 0\n")), "unknown");
    assert_eq!(cpu_brand_from(Some("model name\nmodel name: later\n")), "unknown");
    assert_eq!(cpu_brand_from(Some("x model name: no\n")), "unknown");
}

#[test]
fn cpu_brand_blank_value() {
    assert_eq!(cpu_brand_from(Some("model name:   \n")), "");
}

#[test]
fn total_memory_in_megabytes() {
    let info = "MemTotal:       16318480 kB\nMemFree:         1000 kB\n";
    assert_eq!(total_memory_from(Some(info)), 15936);
    assert_eq!(total_memory_from(Some("MemFree: 1\nMemTotal: +2048 kB")), 2);
}

#[test]
fn total_memory_zero_cases() {
    assert_eq!(total_memory_from(None), 0);
    assert_eq!(total_memory_from(Some("MemFree: 4096 kB\n")), 0);
    assert_eq!(total_memory_from(Some("MemTotal:\n")), 0);
    assert_eq!(total_memory_from(Some("MemTotal: abc kB\n")), 0);
    assert_eq!(total_memory_from(Some("MemTotal: 99999999999999999999 kB\n")), 0);
    assert_eq!(total_memory_from(Some("MemTotal: -5 kB\n")), 0);
}

#[test]
fn total_memory_largest_value() {
    assert_eq!(total_memory_from(Some("MemTotal: 18446744073709551615 kB\n")), u64::MAX / 1024);
}

#[test]
fn os_description_reads_pretty_name() {
    let rel = "NAME=\"Ubuntu\"\nPRETTY_NAME=\"Ubuntu 22.04.3 LTS\"\nID=ubuntu\n";
    assert_eq!(os_description_from(Some(rel)), "Ubuntu 22.04.3 LTS");
    assert_eq!(os_description_from(Some("PRETTY_NAME=Plain\n")), "Plain");
    assert_eq!(os_description_from(Some("PRETTY_NAME=PRETTY_NAME=\"\"x\"\"")), "x");
}

#[test]
fn os_description_linux_cases() {
    assert_eq!(os_description_from(None), "linux");
    assert_eq!(os_description_from(Some("NAME=Arch\n")), "linux");
    assert_eq!(os_description_from(Some("PRETTY_NAME=\"\"\n")), "");
}
