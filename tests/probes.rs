use omnifetch::probes::{
    get_bootenvironment, get_cpu, get_kernel, get_os, get_memory, get_smf, get_uptime, get_zones,
    get_zpools, ProbeError,
};

#[test]
fn smf_counts_online_lines() {
    let mut listing = String::new();
    for _ in 0..7 {
        listing.push_str("online\n");
    }
    listing.push_str("degraded\ndegraded");
    assert_eq!(get_smf(&listing), "7 svcs online");
}

#[test]
fn smf_ignores_other_states() {
    assert_eq!(get_smf("disabled\nmaintenance\nonline\nonline*"), "1 svcs online");
    assert_eq!(get_smf(""), "0 svcs online");
}

#[test]
fn zpool_single_pool() {
    assert_eq!(get_zpools("tank 10% 100G 1T"), Ok("tank 100G/1T".to_string()));
}

#[test]
fn zpool_several_pools_tab_separated() {
    let out = get_zpools("rpool\t3%\t20.5G\t800G\ntank\t10%\t100G\t1T");
    assert_eq!(out, Ok("rpool 20.5G/800G, tank 100G/1T".to_string()));
}

#[test]
fn zpool_short_line_is_an_error() {
    assert_eq!(get_zpools("tank 10% 100G"), Err(ProbeError::MissingField));
    assert_eq!(get_zpools(""), Ok(String::new()));
}

#[test]
fn bootenv_same_current_and_next() {
    let listing = "omnios-r151050;a1b2;NR;/;5.1G;static;1717000000\nold;c3d4;;;1G;static;1700000000";
    assert_eq!(get_bootenvironment(listing), Ok("omnios-r151050".to_string()));
}

#[test]
fn bootenv_staged_next() {
    let listing = "be-a;u1;N;/;1G;static;1\nbe-b;u2;R;;1G;static;2";
    assert_eq!(get_bootenvironment(listing), Ok("be-a (staged be-b)".to_string()));
}

#[test]
fn bootenv_two_current_is_a_hard_error() {
    let listing = "be-a;u1;N;/;1G;static;1\nbe-b;u2;N;;1G;static;2";
    assert_eq!(get_bootenvironment(listing), Err(ProbeError::InconsistentBootEnv));
}

#[test]
fn bootenv_two_next_is_a_hard_error() {
    let listing = "be-a;u1;NR;/;1G;static;1\nbe-b;u2;R;;1G;static;2";
    assert_eq!(get_bootenvironment(listing), Err(ProbeError::InconsistentBootEnv));
}

#[test]
fn bootenv_missing_flags() {
    assert_eq!(get_bootenvironment("be-a;u1;N;/"), Err(ProbeError::NoNextBootEnv));
    assert_eq!(get_bootenvironment("be-a;u1;R;/"), Err(ProbeError::NoCurrentBootEnv));
    assert_eq!(get_bootenvironment(""), Err(ProbeError::NoNextBootEnv));
    assert_eq!(get_bootenvironment("be-a;u1"), Err(ProbeError::MissingField));
}

#[test]
fn cpu_groups_brands_in_first_seen_order() {
    let stat = "cpu_info:0:cpu_info0:brand\tIntel(r) Xeon(r) E5\n\
                cpu_info:1:cpu_info1:brand\tAMD EPYC 7302\n\
                cpu_info:2:cpu_info2:brand\tIntel(r) Xeon(r) E5\n\
                cpu_info:3:cpu_info3:brand\tIntel(r) Xeon(r) E5";
    assert_eq!(get_cpu(stat), Ok("3 x Intel(r) Xeon(r) E5, 1 x AMD EPYC 7302".to_string()));
}

#[test]
fn cpu_counts_add_up_to_lines() {
    let mut stat = String::new();
    for i in 0..12 {
        let brand = if i % 3 == 0 { "A" } else { "B" };
        stat.push_str(&format!("cpu_info:{}:x:brand\t{}\n", i, brand));
    }
    let out = get_cpu(&stat).unwrap();
    assert_eq!(out, "4 x A, 8 x B");
    let total: u32 = out.split(", ").map(|seg| seg.split(" x ").next().unwrap().parse::<u32>().unwrap()).sum();
    assert_eq!(total, 12);
}

#[test]
fn cpu_line_without_tab_is_an_error() {
    assert_eq!(get_cpu("cpu_info:0:cpu_info0:brand"), Err(ProbeError::MissingField));
    assert_eq!(get_cpu(""), Ok(String::new()));
}

#[test]
fn uptime_whole_days() {
    let stat = "unix:0:system_misc:boot_time\t1000";
    assert_eq!(get_uptime(stat, 1000 + 3 * 86400 + 5), Ok("up 3 days".to_string()));
    assert_eq!(get_uptime(stat, 1000), Ok("up 0 days".to_string()));
}

#[test]
fn uptime_day_step() {
    let stat = "unix:0:system_misc:boot_time\t1718000000";
    let now = 1718000000 + 10 * 86400;
    assert_eq!(get_uptime(stat, now), Ok("up 10 days".to_string()));
    assert_eq!(get_uptime(stat, now + 86400), Ok("up 11 days".to_string()));
    assert_eq!(get_uptime(stat, now + 86399), Ok("up 10 days".to_string()));
}

#[test]
fn uptime_errors() {
    assert_eq!(get_uptime("boot_time", 5), Err(ProbeError::MissingField));
    assert_eq!(get_uptime("boot_time\tabc", 5), Err(ProbeError::BadNumber));
    assert_eq!(get_uptime("boot_time\t", 5), Err(ProbeError::BadNumber));
    assert_eq!(get_uptime("boot_time\t18446744073709551616", 5), Err(ProbeError::BadNumber));
    assert_eq!(get_uptime("boot_time\t10", 5), Err(ProbeError::BootInFuture));
    assert_eq!(get_uptime("boot_time\t+10", 86410), Ok("up 1 days".to_string()));
    assert_eq!(
        get_uptime("boot_time\t18446744073709551615", u64::MAX),
        Ok("up 0 days".to_string())
    );
}

#[test]
fn memory_second_line() {
    let out = "lgroup 0 (root):\n        Memory: installed 64G, allocated 12G, free 52G";
    assert_eq!(get_memory(out), Ok("installed 64G, allocated 12G, free 52G".to_string()));
}

#[test]
fn memory_errors() {
    assert_eq!(get_memory("lgroup 0 (root):"), Err(ProbeError::MissingLine));
    assert_eq!(get_memory("lgroup 0\nno colon here"), Err(ProbeError::MissingField));
}

#[test]
fn zones_counts_lines() {
    assert_eq!(get_zones("global\nweb", "global\nweb\ndb"), "2 running (3 total)");
    assert_eq!(get_zones("", ""), "0 running (0 total)");
}

#[test]
fn kernel_is_trimmed() {
    assert_eq!(get_kernel("  omnios-r151050-8c1b8d5a4f \n"), "omnios-r151050-8c1b8d5a4f");
}

#[test]
fn os_first_line_trimmed() {
    assert_eq!(
        get_os("  OmniOS v11 r151050n \n  Copyright 2024 OmniOS Community Edition\n"),
        Ok("OmniOS v11 r151050n".to_string())
    );
    assert_eq!(get_os(""), Err(ProbeError::MissingLine));
}

#[test]
fn lines_drop_carriage_return_only_before_newline() {
    assert_eq!(get_smf("online\r\nonline\r"), "1 svcs online");
    assert_eq!(get_smf("online\r\nonline\r\n"), "2 svcs online");
}
