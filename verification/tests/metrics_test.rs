use rexporter::metrics::{
    leading_words, parse_diskstats, parse_meminfo, parse_net_dev, parse_stat, CpuTimes,
    DiskStats, NetDevStats, USER_HZ,
};

const STAT_FIXTURE: &str = "\
cpu  10132153 290696 3084719 46828483 16683 0 25195 0 175628 0
cpu0 5132153 140696 1584719 23828483 8683 0 12595 0 87628 0
cpu1 5000000 150000 1500000 23000000 8000 0 12600 0 88000 0
intr 1234567 0 0 0
ctxt 987654321
btime 1700000000
processes 12345
";

#[test]
fn parses_per_core_cpu_lines_and_skips_the_aggregate() {
    let parsed = parse_stat(STAT_FIXTURE);
    assert_eq!(
        parsed.len(),
        2,
        "must not include the aggregate 'cpu ' line as a third entry"
    );
    let cpu0 = parsed.get("0").unwrap();
    assert_eq!(cpu0.user as f64 / USER_HZ as f64, 5132153.0 / 100.0);
    assert_eq!(cpu0.idle as f64 / USER_HZ as f64, 23828483.0 / 100.0);
}

const MEMINFO_FIXTURE: &str = "\
MemTotal:       16384000 kB
MemFree:         2048000 kB
MemAvailable:    8192000 kB
Buffers:          512000 kB
Cached:          2048000 kB
SwapTotal:       4096000 kB
SwapFree:        4096000 kB
";

#[test]
fn meminfo_converts_kb_to_bytes() {
    let parsed = parse_meminfo(MEMINFO_FIXTURE);
    assert_eq!(*parsed.get("MemTotal").unwrap(), 16_384_000 * 1024);
    assert_eq!(*parsed.get("MemFree").unwrap(), 2_048_000 * 1024);
}

const DISKSTATS_FIXTURE: &str = "\
   8       0 sda 1000 5 20000 100 500 3 16000 200 0 300 300 0 0 0 0 0
   7       0 loop0 10 0 80 1 0 0 0 0 0 0 0 0 0 0 0 0
";

#[test]
fn diskstats_converts_sectors_to_bytes_and_skips_loop_devices() {
    let parsed = parse_diskstats(DISKSTATS_FIXTURE);
    assert_eq!(parsed.len(), 1, "loop0 must be filtered out");
    let sda = parsed.get("sda").unwrap();
    assert_eq!(sda.reads_completed, 1000);
    assert_eq!(sda.read_bytes, 20000 * 512);
    assert_eq!(sda.writes_completed, 500);
    assert_eq!(sda.written_bytes, 16000 * 512);
}

const NETDEV_FIXTURE: &str = "\
Inter-|   Receive                                                |  Transmit
 face |bytes    packets errs drop fifo frame compressed multicast|bytes    packets errs drop fifo colls carrier compressed
    lo: 1234567    100    0    0    0     0          0         0  1234567     100    0    0    0     0       0          0
  eth0: 987654321  200    0    0    0     0          0         0 123456789   150    0    0    0     0       0          0
";

#[test]
fn net_dev_parses_receive_and_transmit_bytes_per_interface() {
    let parsed = parse_net_dev(NETDEV_FIXTURE);
    assert_eq!(parsed.len(), 2);
    assert_eq!(parsed.get("eth0").unwrap().receive_bytes, 987654321);
    assert_eq!(parsed.get("eth0").unwrap().transmit_bytes, 123456789);
    assert_eq!(parsed.get("lo").unwrap().receive_bytes, 1234567);
}

#[test]
fn stat_keeps_all_eight_modes_in_ticks() {
    let parsed = parse_stat(STAT_FIXTURE);
    assert_eq!(
        *parsed.get("1").unwrap(),
        CpuTimes {
            user: 5000000,
            nice: 150000,
            system: 1500000,
            idle: 23000000,
            iowait: 8000,
            irq: 0,
            softirq: 12600,
            steal: 0,
        }
    );
    assert!(parsed.get("").is_none());
}

#[test]
fn stat_skips_short_and_non_numeric_core_lines() {
    let text = "cpu2 1 2 3 4 5 6 7\ncpux 1 2 3 4 5 6 7 8\ncpu3 1 2 x 3 4 5 6 7 8\ncpu\t\n";
    let parsed = parse_stat(text);
    assert_eq!(parsed.len(), 1);
    assert_eq!(parsed.get("3").unwrap().system, 3);
    assert_eq!(parsed.get("3").unwrap().steal, 8);
}

#[test]
fn stat_later_line_for_same_core_wins() {
    let parsed = parse_stat("cpu0 1 1 1 1 1 1 1 1\ncpu0 2 2 2 2 2 2 2 2\n");
    assert_eq!(parsed.len(), 1);
    assert_eq!(parsed.get("0").unwrap().user, 2);
}

#[test]
fn meminfo_skips_lines_without_a_number_and_saturates() {
    let text = "Nothing here\nHugePages_Total:       0\nBroken: kB\nHuge: 18446744073709551615 kB\r\n";
    let parsed = parse_meminfo(text);
    assert_eq!(parsed.len(), 2);
    assert_eq!(*parsed.get("HugePages_Total").unwrap(), 0);
    assert_eq!(*parsed.get("Huge").unwrap(), u64::MAX);
    assert!(parsed.get("Broken").is_none());
}

#[test]
fn meminfo_reads_plus_sign_and_rejects_overflow() {
    let parsed = parse_meminfo("A: +2 kB\nB: 18446744073709551616 kB\n");
    assert_eq!(*parsed.get("A").unwrap(), 2048);
    assert!(parsed.get("B").is_none());
}

#[test]
fn diskstats_skips_ram_devices_short_lines_and_counts_bad_numbers_as_zero() {
    let text = " 1 0 ram0 1 2 3 4 5 6 7 8\n 8 0 sdb 1 2 3\n 8 16 sdc x 0 y 0 z 0 w\n";
    let parsed = parse_diskstats(text);
    assert_eq!(parsed.len(), 1);
    assert_eq!(
        *parsed.get("sdc").unwrap(),
        DiskStats {
            reads_completed: 0,
            read_bytes: 0,
            writes_completed: 0,
            written_bytes: 0,
        }
    );
}

#[test]
fn diskstats_saturates_byte_counts() {
    let parsed = parse_diskstats("8 0 sda 1 0 18446744073709551615 0 2 0 3\n");
    let sda = parsed.get("sda").unwrap();
    assert_eq!(sda.read_bytes, u64::MAX);
    assert_eq!(sda.written_bytes, 3 * 512);
}

#[test]
fn net_dev_ignores_header_short_lines_and_trims_names() {
    let text = "a: 1 2 3 4 5 6 7 8 9 10 11 12 13 14 15 16\nb: 1 2 3 4 5 6 7 8 9 10 11 12 13 14 15 16\n  wlan0 : 1 2 3 4 5 6 7 8 9 10 11 12 13 14 15 16\nbad: 1 2 3\n";
    let parsed = parse_net_dev(text);
    assert_eq!(parsed.len(), 1);
    assert_eq!(
        *parsed.get("wlan0").unwrap(),
        NetDevStats {
            receive_bytes: 1,
            transmit_bytes: 9,
        }
    );
    assert_eq!(parse_net_dev("only one line\n").len(), 0);
}

#[test]
fn leading_words_takes_the_first_fields() {
    let w = leading_words("0.52 0.58 0.59 2/1234 5678\n", 3);
    assert_eq!(w, vec!["0.52".to_string(), "0.58".to_string(), "0.59".to_string()]);
    assert_eq!(leading_words("12345.67\n", 3), vec!["12345.67".to_string()]);
    assert!(leading_words("  \n", 1).is_empty());
}

#[test]
fn stat_skips_the_aggregate_line_whatever_white_space_follows_cpu() {
    assert!(parse_stat("cpu\t1 2 3 4 5 6 7 8 9\n").is_empty());
    let parsed = parse_stat("cpu1 1 1 1 1 1 1 1 1\ncpu\t1 2 3 4 5 6 7 8 9\n");
    assert_eq!(parsed.get("1").unwrap().user, 1);
}
