use healthstatus::collectors::{
    cpu_model, is_wsl, kib, memory_usage, netsh_wifi_pairs, nv_number_text, nv_rows,
    parse_df, parse_meminfo, parse_net_dev, parse_proc_stat_cpu, physical_cores,
    powershell_pairs, pretty_name, sort_by_load, stat_cpu_ticks, sysfs_charging,
    system_details, top_processes, vm_rss_bytes, windows_battery, counter_delta, NetCounters,
    NetSnapshot, ProcessInfo,
};

fn proc(pid: u32, ticks: u64, mem: u64) -> ProcessInfo {
    ProcessInfo { pid, name: format!("p{pid}"), cpu_ticks: ticks, memory_bytes: mem }
}

#[test]
fn wsl_kernel_is_recognised_in_any_case() {
    assert!(is_wsl("Linux version 5.15.90.1-MICROSOFT-standard-WSL2"));
    assert!(is_wsl("linux 5.15 microsoft"));
    assert!(!is_wsl("Linux version 6.1.0-13-amd64"));
    assert!(!is_wsl(""));
}

#[test]
fn os_release_and_cpuinfo_names() {
    let os = "NAME=\"Ubuntu\"\nPRETTY_NAME=\"Ubuntu 22.04.3 LTS\"\nPRETTY_NAME=\"later\"\n";
    assert_eq!(pretty_name(os).as_deref(), Some("Ubuntu 22.04.3 LTS"));
    assert_eq!(pretty_name("NAME=x\n"), None);
    let cpu = "processor\t: 0\nmodel name\t: AMD Ryzen 7 5800X\nmodel name\t: other\n";
    assert_eq!(cpu_model(cpu).as_deref(), Some("AMD Ryzen 7 5800X"));
    assert_eq!(cpu_model("model name without colon\n"), None);
}

#[test]
fn physical_cores_counts_distinct_pairs() {
    let cpu = "processor\t: 0\nphysical id\t: 0\ncore id\t: 0\n\n\
               processor\t: 1\nphysical id\t: 0\ncore id\t: 1\n\n\
               processor\t: 2\nphysical id\t: 0\ncore id\t: 0\n\n";
    assert_eq!(physical_cores(cpu), Some(2));
    assert_eq!(physical_cores("processor : 0\n"), None);
}

#[test]
fn powershell_and_netsh_pairs() {
    let ps = "Manufacturer=LENOVO\r\nModel = 20XW\nno pair here\nCPU=Intel = Core\n";
    assert_eq!(
        powershell_pairs(ps),
        vec![
            ("Manufacturer".to_string(), "LENOVO".to_string()),
            ("Model".to_string(), "20XW".to_string()),
            ("CPU".to_string(), "Intel = Core".to_string()),
        ]
    );
    let netsh = "    Name                   : Wi-Fi\n    State                  : connected\n    SSID                   : home\n    Radio type             : 802.11ax\n    Receive rate (Mbps)    : 1201\n    Signal                 : 92%\n";
    assert_eq!(
        netsh_wifi_pairs(netsh),
        vec![
            ("State".to_string(), "connected".to_string()),
            ("SSID".to_string(), "home".to_string()),
            ("Radio".to_string(), "802.11ax".to_string()),
            ("Rx Mbps".to_string(), "1201".to_string()),
            ("Signal".to_string(), "92%".to_string()),
        ]
    );
}

#[test]
fn system_details_only_asks_windows_under_wsl() {
    let d = system_details(
        false,
        Some("6.1.0"),
        None,
        Some("PRETTY_NAME=\"Debian\"\n"),
        None,
        1024,
        "A=B\n",
        "SSID : x\n",
    );
    assert!(!d.wsl);
    assert_eq!(d.kernel, "6.1.0");
    assert_eq!(d.arch, "");
    assert_eq!(d.distro.as_deref(), Some("Debian"));
    assert_eq!(d.cpu_model, None);
    assert_eq!(d.vm_ram_total, 1024);
    assert!(d.windows.is_empty() && d.wifi.is_empty());
    let w = system_details(true, None, Some("x86_64"), None, None, 0, "A=B\n", "SSID : x\n");
    assert_eq!(w.windows, vec![("A".to_string(), "B".to_string())]);
    assert_eq!(w.wifi, vec![("SSID".to_string(), "x".to_string())]);
}

#[test]
fn meminfo_lookup_and_usage() {
    let text = "MemTotal:       16000 kB\nMemFree:         2000 kB\nMemAvailable:    6000 kB\nSwapTotal:       1000 kB\nSwapFree:         250 kB\nbogus line\n";
    let mem = parse_meminfo(text).unwrap();
    assert_eq!(kib(&mem, "MemTotal"), 16000 * 1024);
    assert_eq!(kib(&mem, "Missing"), 0);
    let u = memory_usage(&mem);
    assert_eq!(u.ram_total, 16000 * 1024);
    assert_eq!(u.ram_used, 10000 * 1024);
    assert_eq!(u.ram_available, 6000 * 1024);
    assert_eq!(u.swap_used, 750 * 1024);
    // Without MemAvailable the free memory counts.
    let no_avail = parse_meminfo("MemTotal: 100 kB\nMemFree: 40 kB\n").unwrap();
    assert_eq!(memory_usage(&no_avail).ram_used, 60 * 1024);
    // A later duplicate wins, as in a map.
    let dup = parse_meminfo("MemTotal: 1 kB\nMemTotal: 2 kB\n").unwrap();
    assert_eq!(kib(&dup, "MemTotal"), 2048);
    assert!(parse_meminfo("Huge: 18446744073709551615 kB\n").is_none());
}

#[test]
fn proc_stat_cpu_lines() {
    let text = "cpu  10 0 5 80 5 0 0 0\ncpu0 5 x 2 40\nintr 1 2\n";
    assert_eq!(
        parse_proc_stat_cpu(text),
        vec![vec![10, 0, 5, 80, 5, 0, 0, 0], vec![5, 2, 40]]
    );
}

#[test]
fn df_rows_of_real_file_systems() {
    let text = "Filesystem Type 1-blocks Used Available Capacity Mounted on\n\
                /dev/sda1 ext4 1000 400 600 40% /\n\
                tmpfs tmpfs 10 0 10 0% /run\n\
                C:\\ 9p 2000 1500 500 75% /mnt/c with space\n";
    let rows = parse_df(text);
    assert_eq!(rows.len(), 2);
    assert_eq!(rows[0].device, "/dev/sda1");
    assert_eq!(rows[0].fstype, "ext4");
    assert_eq!((rows[0].total, rows[0].used, rows[0].free), (1000, 400, 600));
    assert_eq!(rows[0].mount, "/");
    assert_eq!(rows[1].mount, "/mnt/c with space");
}

#[test]
fn net_dev_counters() {
    let text = "Inter-|   Receive\n face |bytes packets\n  eth0: 100 1 0 0 0 0 0 0 200 2 0 0 0 0 0 0\n    lo: 5 0 0 0 0 0 0 0 5 0 0 0 0 0 0 0\nbad line\n";
    let rows = parse_net_dev(text);
    assert_eq!(rows.len(), 2);
    assert_eq!((rows[0].name.as_str(), rows[0].recv, rows[0].sent), ("eth0", 100, 200));
    assert_eq!((rows[1].name.as_str(), rows[1].recv, rows[1].sent), ("lo", 5, 5));
}

#[test]
fn process_stat_and_status() {
    let stat = "1 (init) S 0 1 1 0 -1 4194560 100 0 0 0 7 3 0 0 20 0 1";
    assert_eq!(stat_cpu_ticks(stat), Some(10));
    assert_eq!(stat_cpu_ticks("1 (x) S"), Some(0));
    assert_eq!(vm_rss_bytes("Name: x\nVmRSS:\t  2048 kB\n"), Some(2048 * 1024));
    assert_eq!(vm_rss_bytes("Name: x\n"), Some(0));
    assert_eq!(vm_rss_bytes("VmRSS:\nVmRSS: 5 kB\n"), Some(0));
    assert_eq!(vm_rss_bytes("VmRSS: 18446744073709551615 kB\n"), None);
}

#[test]
fn processes_ranked_by_cpu_then_memory() {
    let procs = vec![proc(1, 5, 10), proc(2, 9, 1), proc(3, 5, 20), proc(4, 5, 10)];
    let sorted: Vec<u32> = sort_by_load(procs.clone()).iter().map(|p| p.pid).collect();
    assert_eq!(sorted, vec![2, 3, 1, 4]);
    let top: Vec<u32> = top_processes(procs, 2).iter().map(|p| p.pid).collect();
    assert_eq!(top, vec![2, 3]);
    assert!(top_processes(Vec::new(), 8).is_empty());
    assert_eq!(top_processes(vec![proc(7, 1, 1), proc(8, 2, 2)], 10).len(), 2);
}

#[test]
fn battery_states() {
    assert!(sysfs_charging("Charging\n"));
    assert!(sysfs_charging("Full"));
    assert!(!sysfs_charging("Discharging\n"));
    assert_eq!(windows_battery("87,2\r\n"), ("87".to_string(), Some(true)));
    assert_eq!(windows_battery("50, 1"), ("50".to_string(), Some(false)));
    assert_eq!(windows_battery("50"), ("50".to_string(), None));
    assert_eq!(windows_battery("50,x"), ("50".to_string(), None));
}

#[test]
fn nvidia_fields_and_rows() {
    assert_eq!(nv_number_text(" 42 ").as_deref(), Some("42"));
    assert_eq!(nv_number_text("[N/A]"), None);
    assert_eq!(nv_number_text("[Not Supported]"), None);
    assert_eq!(nv_number_text(" "), None);
    assert_eq!(nv_number_text("wat").as_deref(), Some("wat"));
    let rows = nv_rows("1, a, 10\nbroken\n2,b,[N/A]\n", 3);
    assert_eq!(
        rows,
        vec![
            vec!["1".to_string(), "a".to_string(), "10".to_string()],
            vec!["2".to_string(), "b".to_string(), "[N/A]".to_string()],
        ]
    );
}

#[test]
fn network_deltas_since_previous_snapshot() {
    let counters = |name: &str, recv: u64, sent: u64| NetCounters { name: name.to_string(), recv, sent };
    let prev = NetSnapshot {
        time: None,
        counters: vec![counters("eth0", 100, 50), counters("lo", 7, 7), counters("eth0", 120, 60)],
    };
    assert_eq!(counter_delta(&prev, "eth0", 150, 90), Some((30, 30)));
    assert_eq!(counter_delta(&prev, "eth0", 110, 40), Some((0, 0)));
    assert_eq!(counter_delta(&prev, "lo", 7, 9), Some((0, 2)));
    assert_eq!(counter_delta(&prev, "wlan0", 1, 1), None);
    assert_eq!(counter_delta(&NetSnapshot::default(), "eth0", 1, 1), None);
}
