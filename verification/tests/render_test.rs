use rexporter::collect::render_contents;
use rexporter::metric_map::MetricMap;
use rexporter::metrics::{CpuTimes, DiskStats, NetDevStats};
use rexporter::render::{render, LoadAvgText};

#[test]
fn renders_valid_looking_prometheus_text_with_expected_metric_names() {
    let mut cpu = MetricMap::new();
    cpu.insert(
        "0".to_string(),
        CpuTimes {
            user: 100,
            nice: 0,
            system: 200,
            idle: 10000,
            iowait: 0,
            irq: 0,
            softirq: 0,
            steal: 0,
        },
    );
    let mut mem = MetricMap::new();
    mem.insert("MemTotal".to_string(), 16_000_000_000);
    let mut disk = MetricMap::new();
    disk.insert(
        "sda".to_string(),
        DiskStats {
            reads_completed: 10,
            read_bytes: 5120,
            writes_completed: 5,
            written_bytes: 2560,
        },
    );
    let mut net = MetricMap::new();
    net.insert(
        "eth0".to_string(),
        NetDevStats {
            receive_bytes: 100,
            transmit_bytes: 200,
        },
    );

    let text = render(
        &cpu,
        &mem,
        Some(LoadAvgText {
            load1: 0.1f64.to_string(),
            load5: 0.2f64.to_string(),
            load15: 0.3f64.to_string(),
        }),
        Some(9999.0f64.to_string()),
        &disk,
        &net,
    );

    assert!(text.contains(r#"node_cpu_seconds_total{cpu="0",mode="user"} 1"#));
    assert!(text.contains("node_memory_MemTotal_bytes 16000000000"));
    assert!(text.contains("node_load1 0.1"));
    assert!(text.contains("node_time_seconds_uptime 9999"));
    assert!(text.contains(r#"node_disk_read_bytes_total{device="sda"} 5120"#));
    assert!(text.contains(r#"node_network_transmit_bytes_total{device="eth0"} 200"#));
    assert!(text.contains("# HELP node_cpu_seconds_total"));
    assert!(text.contains("# TYPE node_cpu_seconds_total counter"));
}

#[test]
fn empty_input_still_renders_without_panicking() {
    let text = render(
        &MetricMap::new(),
        &MetricMap::new(),
        None,
        None,
        &MetricMap::new(),
        &MetricMap::new(),
    );
    assert!(text.contains("# HELP node_cpu_seconds_total"));
    assert!(!text.contains("node_load1 "));
}

const EMPTY_TEXT: &str = "# HELP node_cpu_seconds_total Seconds the CPU spent in each mode.
# TYPE node_cpu_seconds_total counter
# HELP node_disk_reads_completed_total Reads completed per device.
# TYPE node_disk_reads_completed_total counter
# HELP node_disk_read_bytes_total Bytes read per device.
# TYPE node_disk_read_bytes_total counter
# HELP node_disk_writes_completed_total Writes completed per device.
# TYPE node_disk_writes_completed_total counter
# HELP node_disk_written_bytes_total Bytes written per device.
# TYPE node_disk_written_bytes_total counter
# HELP node_network_receive_bytes_total Bytes received per interface.
# TYPE node_network_receive_bytes_total counter
# HELP node_network_transmit_bytes_total Bytes transmitted per interface.
# TYPE node_network_transmit_bytes_total counter
";

#[test]
fn empty_input_renders_exactly_the_family_headers() {
    let text = render(
        &MetricMap::new(),
        &MetricMap::new(),
        None,
        None,
        &MetricMap::new(),
        &MetricMap::new(),
    );
    assert_eq!(text, EMPTY_TEXT);
}

#[test]
fn cpu_seconds_are_ticks_over_one_hundred_in_shortest_decimal() {
    let mut cpu = MetricMap::new();
    cpu.insert(
        "7".to_string(),
        CpuTimes {
            user: 5132153,
            nice: 150,
            system: 7,
            idle: 0,
            iowait: 1234567,
            irq: 100,
            softirq: 10,
            steal: 99,
        },
    );
    let text = render(&cpu, &MetricMap::new(), None, None, &MetricMap::new(), &MetricMap::new());
    for (mode, ticks) in [
        ("user", 5132153u64),
        ("nice", 150),
        ("system", 7),
        ("idle", 0),
        ("iowait", 1234567),
        ("irq", 100),
        ("softirq", 10),
        ("steal", 99),
    ] {
        let expected = format!(
            "node_cpu_seconds_total{{cpu=\"7\",mode=\"{}\"}} {}\n",
            mode,
            ticks as f64 / 100.0
        );
        assert!(text.contains(&expected), "{expected}");
    }
}

#[test]
fn families_list_entries_in_ascending_name_order() {
    let mut net = MetricMap::new();
    for name in ["wlan0", "eth0", "lo", "enp0s31f6"] {
        net.insert(
            name.to_string(),
            NetDevStats {
                receive_bytes: 1,
                transmit_bytes: 2,
            },
        );
    }
    let text = render(&MetricMap::new(), &MetricMap::new(), None, None, &MetricMap::new(), &net);
    let rx: Vec<&str> = text
        .lines()
        .filter(|l| l.starts_with("node_network_receive_bytes_total"))
        .collect();
    assert_eq!(
        rx,
        vec![
            "node_network_receive_bytes_total{device=\"enp0s31f6\"} 1",
            "node_network_receive_bytes_total{device=\"eth0\"} 1",
            "node_network_receive_bytes_total{device=\"lo\"} 1",
            "node_network_receive_bytes_total{device=\"wlan0\"} 1",
        ]
    );
}

#[test]
fn memory_fields_come_in_fixed_order_and_others_are_not_exposed() {
    let text = render_contents(
        "",
        "SwapFree: 1 kB\nMemTotal: 2 kB\nDirty: 3 kB\n",
        None,
        None,
        "",
        "",
    );
    let mem: Vec<&str> = text.lines().filter(|l| l.starts_with("node_memory_")).collect();
    assert_eq!(
        mem,
        vec!["node_memory_MemTotal_bytes 2048", "node_memory_SwapFree_bytes 1024"]
    );
}

#[test]
fn render_contents_parses_and_renders_together() {
    let text = render_contents(
        "cpu0 100 0 0 0 0 0 0 0\n",
        "",
        None,
        Some("12345.67".to_string()),
        "8 0 sda 1 0 2 0 3 0 4\n",
        "h1\nh2\neth0: 5 0 0 0 0 0 0 0 6 0 0 0 0 0 0 0\n",
    );
    assert!(text.contains("node_cpu_seconds_total{cpu=\"0\",mode=\"user\"} 1\n"));
    assert!(text.contains("node_cpu_seconds_total{cpu=\"0\",mode=\"nice\"} 0\n"));
    assert!(text.contains("node_time_seconds_uptime 12345.67\n"));
    assert!(text.contains("node_disk_read_bytes_total{device=\"sda\"} 1024\n"));
    assert!(text.contains("node_disk_written_bytes_total{device=\"sda\"} 2048\n"));
    assert!(text.contains("node_network_receive_bytes_total{device=\"eth0\"} 5\n"));
    assert!(text.contains("node_network_transmit_bytes_total{device=\"eth0\"} 6\n"));
}

#[test]
fn every_memory_sample_has_its_own_help_and_type() {
    let mut mem = MetricMap::new();
    mem.insert("MemTotal".to_string(), 2048);
    let text = render(&MetricMap::new(), &mem, None, None, &MetricMap::new(), &MetricMap::new());
    assert!(text.contains(
        "# HELP node_memory_MemTotal_bytes Memory field MemTotal from /proc/meminfo, in bytes.\n\
         # TYPE node_memory_MemTotal_bytes gauge\n\
         node_memory_MemTotal_bytes 2048\n"
    ));
}

#[test]
fn every_sample_line_follows_help_and_type_of_its_metric() {
    let text = render_contents(
        "cpu0 100 0 0 0 0 0 0 0\ncpu1 1 2 3 4 5 6 7 8\n",
        "MemTotal: 2 kB\nSwapFree: 1 kB\n",
        Some(LoadAvgText {
            load1: "0.5".to_string(),
            load5: "0.25".to_string(),
            load15: "0.1".to_string(),
        }),
        Some("12.5".to_string()),
        "8 0 sda 1 0 2 0 3 0 4\n",
        "h1\nh2\neth0: 5 0 0 0 0 0 0 0 6 0 0 0 0 0 0 0\n",
    );
    let mut help: Option<String> = None;
    let mut typ: Option<String> = None;
    let mut seen: Vec<String> = Vec::new();
    for line in text.lines() {
        if let Some(rest) = line.strip_prefix("# HELP ") {
            let name = rest.split(' ').next().unwrap().to_string();
            assert!(!seen.contains(&name), "{name} announced twice");
            seen.push(name.clone());
            help = Some(name);
            typ = None;
        } else if let Some(rest) = line.strip_prefix("# TYPE ") {
            let mut parts = rest.split(' ');
            let name = parts.next().unwrap().to_string();
            assert_eq!(Some(&name), help.as_ref());
            assert!(matches!(parts.next(), Some("counter") | Some("gauge")));
            typ = Some(name);
        } else {
            let name: String = line.chars().take_while(|c| *c != '{' && *c != ' ').collect();
            assert_eq!(Some(&name), typ.as_ref(), "{line}");
        }
    }
}
