use healthstatus::logging::csv_escape;
use healthstatus::collectors::SystemDetails;
use healthstatus::logging::csv_row;
use healthstatus::render::{
    gpu_section, json_report, GpuFigures, host_rows, status_page, cpu_json, disk_json, disks_json, gpu_object_json, gpu_telemetry_json, host_json,
    interface_json, join_all, memory_json, network_json, GpuReadings,
    details_json, details_page, footer, gpu_json, gpu_process_json, header, join_first,
    json_object, json_opt, json_pairs, kv, kv_or_empty, section, sensors_page, truncate_left,
    truncate_right, warnings_line, GpuSection,
};

fn pairs(v: &[(&str, &str)]) -> Vec<(String, String)> {
    v.iter().map(|(k, v)| (k.to_string(), v.to_string())).collect()
}

#[test]
fn section_and_rows() {
    assert_eq!(section("CPU", "x\n"), "\n== CPU ==\nx\n");
    assert_eq!(
        kv(&pairs(&[("Kernel", "6.1"), ("Arch", "x86_64")])),
        format!("{:<16} {}\n{:<16} {}\n", "Kernel", "6.1", "Arch", "x86_64")
    );
    assert_eq!(kv_or_empty(&[], "no sensors available"), "no sensors available\n");
    assert_eq!(
        kv_or_empty(&pairs(&[("a-very-long-key-name", "v")]), "none"),
        "a-very-long-key-name v\n"
    );
}

#[test]
fn truncation_marks_the_cut() {
    assert_eq!(truncate_left("/mnt/wsl/docker-desktop", 10), "~r-desktop");
    assert_eq!(truncate_left("/", 10), "/");
    assert_eq!(truncate_right("a-long-process-name", 8), "a-long-~");
    assert_eq!(truncate_right("short", 8), "short");
    assert_eq!(truncate_right("exact", 5), "exact");
    assert_eq!(truncate_left("éééé", 3), "~éé");
}

#[test]
fn json_values() {
    assert_eq!(json_opt(Some("Ubuntu \"22\"")), "\"Ubuntu \\\"22\\\"\"");
    assert_eq!(json_opt(None), "null");
    assert_eq!(json_pairs(&[]), "{}");
    assert_eq!(
        json_pairs(&pairs(&[("SSID", "home"), ("State", "connected")])),
        "{\"SSID\":\"home\",\"State\":\"connected\"}"
    );
}

#[test]
fn page_header() {
    let h = header("ann", "box", "Status", 1);
    assert_eq!(
        h,
        format!("healthstatus | ann@box | Status (1/3)\n{}\n", "-".repeat(78))
    );
}

#[test]
fn csv_fields() {
    assert_eq!(csv_escape("host"), "host");
    assert_eq!(csv_escape("host,one"), "\"host,one\"");
    assert_eq!(csv_escape("say \"hi\""), "\"say \"\"hi\"\"\"");
    assert_eq!(csv_escape("two\nlines"), "\"two\nlines\"");
    assert_eq!(csv_escape(""), "");
}

fn sample_details() -> SystemDetails {
    SystemDetails {
        wsl: true,
        kernel: "5.15.90.1-microsoft-standard-WSL2".to_string(),
        distro: Some("Ubuntu \"22.04\"".to_string()),
        arch: "x86_64".to_string(),
        cpu_model: None,
        vm_ram_total: 8_000_000_000,
        windows: pairs(&[("Windows", "11 Pro")]),
        wifi: Vec::new(),
    }
}

#[test]
fn details_page_layout() {
    let page = details_page("ann", "box", &sample_details(), "7.5G");
    let expected = format!(
        "healthstatus | ann@box | System details (2/3)\n{}\n\n== Host ==\n{:<16} {}\n{:<16} {}\n{:<16} {}\n{:<16} {}\n{:<16} {}\n{:<16} {}\n\n== Wi-Fi ==\nno Wi-Fi interface\n[1] Status  [2] Details  [3] Sensors  [tab] next  [q] quit\n",
        "-".repeat(78),
        "Distro", "Ubuntu \"22.04\"",
        "Kernel", "5.15.90.1-microsoft-standard-WSL2",
        "Arch", "x86_64",
        "CPU as seen", "-",
        "WSL VM RAM", "7.5G",
        "Windows", "11 Pro",
    );
    assert_eq!(page, expected);
}

#[test]
fn details_as_json_member() {
    assert_eq!(
        details_json(&sample_details()),
        "\"system_details\":{\"wsl\":true,\"kernel\":\"5.15.90.1-microsoft-standard-WSL2\",\"distro\":\"Ubuntu \\\"22.04\\\"\",\"arch\":\"x86_64\",\"cpu_model\":null,\"vm_ram_total\":8000000000,\"windows\":{\"Windows\":\"11 Pro\"},\"wifi\":{}}"
    );
}

fn strings(v: &[&str]) -> Vec<String> {
    v.iter().map(|s| s.to_string()).collect()
}

#[test]
fn warnings_line_joins_or_is_empty() {
    assert_eq!(warnings_line(&[]), "");
    assert_eq!(
        warnings_line(&strings(&["CPU 95.0%", "RAM 92.0%"])),
        "WARN CPU 95.0% | RAM 92.0%\n"
    );
    assert_eq!(join_first(&strings(&["a", "b", "c"]), 2, ", "), "a, b");
    assert_eq!(join_first(&strings(&["a"]), 0, ", "), "");
}

#[test]
fn footer_shows_uptime_os_and_three_temperatures() {
    let nav = "[1] Status  [2] Details  [3] Sensors  [tab] next  [q] quit\n";
    assert_eq!(
        footer(90061, Some("Ubuntu 22.04"), "linux", "x86_64", &strings(&["a 40 C", "b 41 C", "c 42 C", "d 43 C"])),
        format!("{} | Uptime: 1d 1h 1m | OS: Ubuntu 22.04 | Arch: x86_64 | Temps: a 40 C, b 41 C, c 42 C\n{nav}", "-".repeat(78))
    );
    assert_eq!(
        footer(59, None, "linux", "aarch64", &[]),
        format!("{} | Uptime: 0m 59s | OS: linux | Arch: aarch64\n{nav}", "-".repeat(78))
    );
}

#[test]
fn sensors_page_numbers_gpus_or_says_why_not() {
    let head = format!("healthstatus | ann@box | Sensors (3/3)\n{}\n", "-".repeat(78));
    let nav = "[1] Status  [2] Details  [3] Sensors  [tab] next  [q] quit\n";
    let gpus = vec![
        GpuSection { name: "RTX A".to_string(), rows: pairs(&[("Temp", "40 C")]) },
        GpuSection { name: "RTX B".to_string(), rows: pairs(&[("Fan", "30%")]) },
    ];
    let temps = pairs(&[("Package id 0", "51.0 C")]);
    assert_eq!(
        sensors_page("ann", "box", true, None, &gpus, &temps, &[]),
        format!(
            "{head}\n== GPU 1: RTX A ==\n{:<16} 40 C\n\n== GPU 2: RTX B ==\n{:<16} 30%\n\n== CPU / board sensors ==\n{:<16} 51.0 C\n\n== GPU processes ==\nno compute processes visible\n{nav}",
            "Temp", "Fan", "Package id 0"
        )
    );
    assert_eq!(
        sensors_page("ann", "box", false, Some("nvidia-smi not found"), &gpus, &[], &pairs(&[("42", "python (10 MiB)")])),
        format!(
            "{head}\n== GPU ==\nGPU telemetry unavailable: nvidia-smi not found\n\n== CPU / board sensors ==\nno sensors available\n\n== GPU processes ==\n{:<16} python (10 MiB)\n{nav}",
            "42"
        )
    );
    assert!(sensors_page("ann", "box", false, None, &[], &[], &[]).contains("\n== GPU ==\nGPU telemetry unavailable\n"));
}

#[test]
fn json_report_framing() {
    assert_eq!(json_object(&[]), "{}");
    assert_eq!(
        json_object(&strings(&["\"a\":1", "\"b\":[2,3]"])),
        "{\"a\":1,\"b\":[2,3]}"
    );
    assert_eq!(
        gpu_process_json("12", "py\"thon", "null"),
        "{\"pid\":\"12\",\"name\":\"py\\\"thon\",\"mem_mib\":null}"
    );
    assert_eq!(
        gpu_json(false, Some("no nvidia-smi"), &[], &[]),
        "{\"available\":false,\"error\":\"no nvidia-smi\",\"gpus\":[],\"processes\":[]}"
    );
    assert_eq!(
        gpu_json(true, None, &strings(&["{\"name\":\"A\"}", "{\"name\":\"B\"}"]), &strings(&["{}"])),
        "{\"available\":true,\"error\":null,\"gpus\":[{\"name\":\"A\"},{\"name\":\"B\"}],\"processes\":[{}]}"
    );
}

#[test]
fn json_report_members() {
    assert_eq!(
        host_json("ann", "box\"1", "linux", None, "x86_64", "3661.5", true),
        "\"host\":{\"user\":\"ann\",\"hostname\":\"box\\\"1\",\"os\":\"linux\",\"distro\":null,\"arch\":\"x86_64\",\"uptime_s\":3661.5,\"is_wsl\":true}"
    );
    assert_eq!(
        cpu_json("12.5", &strings(&["10", "15"]), 2, None, Some("2400"), &strings(&["0.1", "0.2", "0.3"])),
        "\"cpu\":{\"percent_total\":12.5,\"percent_per_core\":[10,15],\"logical_cores\":2,\"physical_cores\":null,\"freq_mhz\":2400,\"load_avg\":[0.1,0.2,0.3]}"
    );
    assert_eq!(
        cpu_json("0", &[], 8, Some(4), None, &[]),
        "\"cpu\":{\"percent_total\":0,\"percent_per_core\":[],\"logical_cores\":8,\"physical_cores\":4,\"freq_mhz\":null,\"load_avg\":[]}"
    );
    assert_eq!(
        memory_json(100, 40, 60, "40", 10, 0, "0"),
        "\"memory\":{\"ram_total\":100,\"ram_used\":40,\"ram_available\":60,\"ram_percent\":40,\"swap_total\":10,\"swap_used\":0,\"swap_percent\":0}"
    );
    let disk = disk_json("/mnt/c", "C:\\", "9p", 500, 100, 400, "20");
    assert_eq!(
        disk,
        "{\"mount\":\"/mnt/c\",\"device\":\"C:\\\\\",\"fstype\":\"9p\",\"total\":500,\"used\":100,\"free\":400,\"percent\":20}"
    );
    assert_eq!(disks_json(&[]), "\"disks\":[]");
    assert_eq!(disks_json(&[disk.clone(), "{}".to_string()]), format!("\"disks\":[{disk},{{}}]"));
    let iface = interface_json("eth\n0", "1.5", "2", 10, 20);
    assert_eq!(
        iface,
        "{\"name\":\"eth\\n0\",\"up_bps\":1.5,\"down_bps\":2,\"total_sent\":10,\"total_recv\":20}"
    );
    assert_eq!(network_json(&[iface.clone()]), format!("\"network\":{{\"interfaces\":[{iface}]}}"));
    let readings = GpuReadings {
        temp_c: "40".to_string(),
        gpu_util_pct: "null".to_string(),
        mem_util_pct: "3".to_string(),
        vram_used_mib: "100".to_string(),
        vram_total_mib: "8192".to_string(),
        fan_pct: "30".to_string(),
        power_w: "12.5".to_string(),
        power_limit_w: "null".to_string(),
        clock_core_mhz: "1500".to_string(),
        clock_mem_mhz: "7000".to_string(),
    };
    assert_eq!(
        gpu_object_json("RTX", &readings),
        "{\"name\":\"RTX\",\"temp_c\":40,\"gpu_util_pct\":null,\"mem_util_pct\":3,\"vram_used_mib\":100,\"vram_total_mib\":8192,\"fan_pct\":30,\"power_w\":12.5,\"power_limit_w\":null,\"clock_core_mhz\":1500,\"clock_mem_mhz\":7000}"
    );
    assert_eq!(gpu_telemetry_json("{}"), "\"gpu_telemetry\":{}");
    assert_eq!(join_all(&strings(&["a", "b"]), "|"), "a|b");
    assert_eq!(join_first(&strings(&["a", "b"]), 5, ", "), "a, b");
}

#[test]
fn host_rows_with_labels() {
    let rows = host_rows(&sample_details(), "CPU", "WSL RAM", "7.5G");
    assert_eq!(
        rows,
        pairs(&[
            ("Distro", "Ubuntu \"22.04\""),
            ("Kernel", "5.15.90.1-microsoft-standard-WSL2"),
            ("Arch", "x86_64"),
            ("CPU", "-"),
            ("WSL RAM", "7.5G"),
            ("Windows", "11 Pro"),
        ])
    );
}

#[test]
fn status_page_shows_warnings_only_when_there_are_some() {
    let head = format!("healthstatus | ann@box | Status (1/3)\n{}\n", "-".repeat(78));
    let body = "\n== CPU ==\nc\n\n== Memory ==\nm\n\n== Disks ==\nd\n\n== Network ==\nn\n\n== Top processes ==\np\n\n== Battery ==\nb\nFOOT";
    assert_eq!(
        status_page("ann", "box", &[], "c\n", "m\n", "d\n", "n\n", "p\n", "b\n", "FOOT"),
        format!("{head}{body}")
    );
    assert_eq!(
        status_page("ann", "box", &strings(&["CPU 95.0%"]), "c\n", "m\n", "d\n", "n\n", "p\n", "b\n", "FOOT"),
        format!("{head}\n== Warnings ==\nWARN CPU 95.0%\n{body}")
    );
}

#[test]
fn csv_row_layout() {
    assert_eq!(
        csv_row("1700000000.123", "host,one", "12.3", "40.0", 40, 100, "10.0", 5, 50, "0.0", "1.5", "2.5", ""),
        "1700000000.123,\"host,one\",12.3,40.0,40,100,10.0,5,50,0.0,1.5,2.5,\n"
    );
}

fn some(t: &str) -> Option<String> {
    Some(t.to_string())
}

#[test]
fn gpu_section_rows_in_order() {
    let figures = GpuFigures {
        temp_c: some("40"),
        gpu_util_pct: some("12"),
        mem_util_pct: None,
        vram_used_gib: some("1.5"),
        vram_total_gib: some("8.0"),
        fan_pct: some("30"),
        power_w: some("12.5"),
        clock_core_mhz: some("1500"),
        clock_mem_mhz: None,
    };
    let g = gpu_section("RTX", &figures);
    assert_eq!(g.name, "RTX");
    assert_eq!(
        g.rows,
        pairs(&[
            ("Temp", "40 C"),
            ("GPU util", "12%"),
            ("Mem I/O", "-"),
            ("VRAM", "1.5 / 8.0 GiB"),
            ("Fan", "30%"),
            ("Power", "12.5 W"),
            ("Core clock", "1500 MHz"),
            ("Mem clock", "-"),
        ])
    );
    let half = GpuFigures { vram_total_gib: None, ..figures };
    assert_eq!(gpu_section("RTX", &half).rows[3], ("VRAM".to_string(), "-".to_string()));
}

#[test]
fn json_report_members_in_order() {
    assert_eq!(json_report("\"h\":1", "\"c\":2", "\"m\":3", "\"d\":[]", "\"n\":{}", None, None),
        "{\"h\":1,\"c\":2,\"m\":3,\"d\":[],\"n\":{}}");
    let with_all = json_report("\"h\":1", "\"c\":2", "\"m\":3", "\"d\":[]", "\"n\":{}", Some(&sample_details()), Some("{}"));
    assert_eq!(
        with_all,
        format!("{{\"h\":1,\"c\":2,\"m\":3,\"d\":[],\"n\":{{}},{},\"gpu_telemetry\":{{}}}}", details_json(&sample_details()))
    );
    assert_eq!(
        json_report("a", "b", "c", "d", "e", None, Some("{}")),
        "{a,b,c,d,e,\"gpu_telemetry\":{}}"
    );
}
