//! What the exposition text is sure to be: a run of families, each sample
//! line sitting under the `# HELP` and `# TYPE` lines of its own metric.

use vstd::prelude::*;
use crate::metrics::{CpuTimes, DiskStats, NetDevStats};
use crate::render::{
    core_lines, cpu_family, cpu_line, cpu_metric, cpu_samples, disk_family, disk_lines,
    disk_metric, disk_value, load_families, mem_families, mem_family_of, net_family, net_lines,
    net_metric, net_value, render_families, sample_line, uptime_families, value_family,
    DiskCounter, Family, NetCounter,
};
use crate::text::{
    all_digits, decimal, digit_char, digit_value, digits_value, has_prefix, lemma_digit_char,
    lemma_parse_decimal, parse_u64,
};
use crate::render::seconds_text;

verus! {

/// Whether `line` is a sample line of the metric `name`: it starts with the
/// name, followed by `{` (labels) or a space (the value).
pub open spec fn is_sample_of(line: Seq<char>, name: Seq<char>) -> bool {
    &&& has_prefix(line, name)
    &&& line.len() > name.len()
    &&& (line[name.len() as int] == '{' || line[name.len() as int] == ' ')
}

/// Whether the family `f` is a well-formed family: its type is `counter` or
/// `gauge`, and every one of its sample lines is a sample of its own name,
/// so that each sample line follows the `# HELP` and `# TYPE` lines of its
/// own metric.
pub open spec fn announced(f: Family) -> bool {
    &&& (f.2 == "counter"@ || f.2 == "gauge"@)
    &&& forall|j: int| 0 <= j < f.3.len() ==> is_sample_of(#[trigger] f.3[j], f.0)
}

/// Whether every family of `fs` is well formed.
pub open spec fn all_announced(fs: Seq<Family>) -> bool {
    forall|i: int| 0 <= i < fs.len() ==> announced(#[trigger] fs[i])
}

/// A sample line is a sample of its metric.
pub proof fn lemma_sample_line_is_sample(name: Seq<char>, sep: char, rest: Seq<char>)
    requires
        sep == '{' || sep == ' ',
    ensures
        is_sample_of(sample_line(name, sep, rest), name),
{
    let l = sample_line(name, sep, rest);
    assert(l.take(name.len() as int) =~= name);
    assert(l[name.len() as int] == sep);
}

/// Two runs of well-formed families make one.
proof fn lemma_all_announced_append(a: Seq<Family>, b: Seq<Family>)
    requires
        all_announced(a),
        all_announced(b),
    ensures
        all_announced(a + b),
{
    assert forall|i: int| 0 <= i < (a + b).len() implies announced(#[trigger] (a + b)[i]) by {
        if i < a.len() {
            assert((a + b)[i] == a[i]);
        } else {
            assert((a + b)[i] == b[i - a.len()]);
        }
    }
}

/// Every line of a core's time in a mode is a sample of the CPU time metric.
pub proof fn lemma_cpu_lines_are_samples()
    ensures
        forall|core: Seq<char>, mode: Seq<char>, ticks: u64|
            is_sample_of(#[trigger] cpu_line(core, mode, ticks), cpu_metric()),
{
    assert forall|core: Seq<char>, mode: Seq<char>, ticks: u64|
        is_sample_of(#[trigger] cpu_line(core, mode, ticks), cpu_metric()) by {
        lemma_sample_line_is_sample(
            cpu_metric(),
            '{',
            "cpu=\""@ + core + "\",mode=\""@ + mode + "\"} "@ + crate::render::seconds_text(ticks),
        );
    }
}

/// Every CPU sample line is a sample of the CPU time metric.
pub proof fn lemma_cpu_samples_are_samples(es: Seq<(Seq<char>, CpuTimes)>)
    ensures
        forall|j: int| 0 <= j < cpu_samples(es).len() ==> is_sample_of(#[trigger] cpu_samples(es)[j], cpu_metric()),
    decreases es.len(),
{
    if es.len() > 0 {
        lemma_cpu_samples_are_samples(es.drop_last());
        let prev = cpu_samples(es.drop_last());
        let cl = core_lines(es.last().0, es.last().1);
        lemma_cpu_lines_are_samples();
        assert forall|j: int| 0 <= j < cl.len() implies is_sample_of(#[trigger] cl[j], cpu_metric()) by {}
        assert forall|j: int| 0 <= j < cpu_samples(es).len() implies is_sample_of(#[trigger] cpu_samples(es)[j], cpu_metric()) by {
            if j < prev.len() {
                assert(cpu_samples(es)[j] == prev[j]);
            } else {
                assert(cpu_samples(es)[j] == cl[j - prev.len()]);
            }
        }
    }
}


/// A family with a single value sample is well formed.
proof fn lemma_value_family_announced(name: Seq<char>, help: Seq<char>, kind: Seq<char>, value: Seq<char>)
    requires
        kind == "counter"@ || kind == "gauge"@,
    ensures
        announced(value_family(name, help, kind, value)),
{
    lemma_sample_line_is_sample(name, ' ', value);
}

/// Every family of the exposition is well formed: its type is `counter` or
/// `gauge`, and each of its sample lines is a sample of its own metric, so
/// that in `render_text` (the families' text one after the other) every
/// sample line comes after the `# HELP` and `# TYPE` lines of its own
/// metric, with only lines of the same family in between.
pub proof fn lemma_every_sample_announced(
    cpu: Seq<(Seq<char>, CpuTimes)>,
    mem: Map<Seq<char>, u64>,
    load: Option<(Seq<char>, Seq<char>, Seq<char>)>,
    uptime: Option<Seq<char>>,
    disk: Seq<(Seq<char>, DiskStats)>,
    net: Seq<(Seq<char>, NetDevStats)>,
)
    ensures
        all_announced(render_families(cpu, mem, load, uptime, disk, net)),
{
    lemma_cpu_samples_are_samples(cpu);
    let c = seq![cpu_family(cpu)];
    assert(all_announced(c)) by {
        assert(c[0] == cpu_family(cpu));
    }
    assert forall|f: Seq<char>| #[trigger] all_announced(mem_family_of(mem, f)) by {
        if mem.contains_key(f) {
            lemma_value_family_announced(
                crate::render::mem_metric(f),
                crate::render::mem_help(f),
                "gauge"@,
                crate::text::decimal(mem[f] as nat),
            );
            assert(mem_family_of(mem, f)[0] == value_family(
                crate::render::mem_metric(f),
                crate::render::mem_help(f),
                "gauge"@,
                crate::text::decimal(mem[f] as nat),
            ));
        }
    }
    let m = mem_families(mem);
    lemma_all_announced_append(mem_family_of(mem, "MemTotal"@), mem_family_of(mem, "MemFree"@));
    let m2 = mem_family_of(mem, "MemTotal"@) + mem_family_of(mem, "MemFree"@);
    lemma_all_announced_append(m2, mem_family_of(mem, "MemAvailable"@));
    let m3 = m2 + mem_family_of(mem, "MemAvailable"@);
    lemma_all_announced_append(m3, mem_family_of(mem, "Buffers"@));
    let m4 = m3 + mem_family_of(mem, "Buffers"@);
    lemma_all_announced_append(m4, mem_family_of(mem, "Cached"@));
    let m5 = m4 + mem_family_of(mem, "Cached"@);
    lemma_all_announced_append(m5, mem_family_of(mem, "SwapTotal"@));
    let m6 = m5 + mem_family_of(mem, "SwapTotal"@);
    lemma_all_announced_append(m6, mem_family_of(mem, "SwapFree"@));
    assert(all_announced(m));
    let l = load_families(load);
    match load {
        Some((a, b, d)) => {
            lemma_value_family_announced("node_load1"@, "1m load average."@, "gauge"@, a);
            lemma_value_family_announced("node_load5"@, "5m load average."@, "gauge"@, b);
            lemma_value_family_announced("node_load15"@, "15m load average."@, "gauge"@, d);
        },
        None => {},
    }
    assert(all_announced(l));
    let u = uptime_families(uptime);
    match uptime {
        Some(v) => {
            lemma_value_family_announced("node_time_seconds_uptime"@, "Seconds since boot."@, "counter"@, v);
        },
        None => {},
    }
    assert(all_announced(u));
    assert forall|k: DiskCounter| #[trigger] announced(disk_family(k, disk)) by {
        assert forall|j: int| 0 <= j < disk_lines(k, disk).len() implies is_sample_of(
            #[trigger] disk_lines(k, disk)[j],
            disk_metric(k),
        ) by {
            lemma_sample_line_is_sample(
                disk_metric(k),
                '{',
                "device=\""@ + disk[j].0 + "\"} "@ + crate::text::decimal(disk_value(k, disk[j].1) as nat),
            );
        }
    }
    assert forall|k: NetCounter| #[trigger] announced(net_family(k, net)) by {
        assert forall|j: int| 0 <= j < net_lines(k, net).len() implies is_sample_of(
            #[trigger] net_lines(k, net)[j],
            net_metric(k),
        ) by {
            lemma_sample_line_is_sample(
                net_metric(k),
                '{',
                "device=\""@ + net[j].0 + "\"} "@ + crate::text::decimal(net_value(k, net[j].1) as nat),
            );
        }
    }
    let d = seq![
        disk_family(DiskCounter::ReadsCompleted, disk),
        disk_family(DiskCounter::ReadBytes, disk),
        disk_family(DiskCounter::WritesCompleted, disk),
        disk_family(DiskCounter::WrittenBytes, disk),
        net_family(NetCounter::ReceiveBytes, net),
        net_family(NetCounter::TransmitBytes, net),
    ];
    assert(all_announced(d)) by {
        assert forall|i: int| 0 <= i < d.len() implies announced(#[trigger] d[i]) by {
            if i == 0 {
                assert(d[0] == disk_family(DiskCounter::ReadsCompleted, disk));
            } else if i == 1 {
                assert(d[1] == disk_family(DiskCounter::ReadBytes, disk));
            } else if i == 2 {
                assert(d[2] == disk_family(DiskCounter::WritesCompleted, disk));
            } else if i == 3 {
                assert(d[3] == disk_family(DiskCounter::WrittenBytes, disk));
            } else if i == 4 {
                assert(d[4] == net_family(NetCounter::ReceiveBytes, net));
            } else {
                assert(d[5] == net_family(NetCounter::TransmitBytes, net));
            }
        }
    }
    lemma_all_announced_append(c, m);
    lemma_all_announced_append(c + m, l);
    lemma_all_announced_append(c + m + l, u);
    lemma_all_announced_append(c + m + l + u, d);
}


/// The place of a family's name in the order in which the exposition lists
/// its families: CPU time, the seven memory fields, the three load averages,
/// uptime, the four disk counters, the two network counters. The name is
/// told apart by its sixth character, its length, and its tenth and
/// thirteenth characters.
pub open spec fn name_rank(n: Seq<char>) -> int {
    if n[5] == 'c' {
        0
    } else if n[5] == 'm' {
        if n.len() == 26 && n[12] == 'M' {
            1
        } else if n.len() == 25 && n[12] == 'M' {
            2
        } else if n.len() == 30 {
            3
        } else if n.len() == 25 {
            4
        } else if n.len() == 24 {
            5
        } else if n.len() == 27 {
            6
        } else {
            7
        }
    } else if n[5] == 'l' {
        if n.len() == 11 {
            10
        } else if n[9] == '1' {
            8
        } else {
            9
        }
    } else if n[5] == 't' {
        11
    } else if n[5] == 'd' {
        if n.len() == 31 {
            12
        } else if n.len() == 26 {
            13
        } else if n.len() == 32 {
            14
        } else {
            15
        }
    } else {
        if n.len() == 32 {
            16
        } else {
            17
        }
    }
}

/// Whether the families `fs` have names that start with `node_` and whose
/// ranks lie in `lo..hi` and strictly increase.
pub open spec fn ranked(fs: Seq<Family>, lo: int, hi: int) -> bool {
    &&& forall|i: int| 0 <= i < fs.len() ==> lo <= #[trigger] name_rank(fs[i].0) < hi
    &&& forall|i: int| 0 <= i < fs.len() ==> has_prefix(#[trigger] fs[i].0, "node_"@)
    &&& forall|i: int, j: int| 0 <= i < j < fs.len() ==> name_rank(#[trigger] fs[i].0) < name_rank(#[trigger] fs[j].0)
}

/// Two ranked runs, the first wholly below the second, make one.
proof fn lemma_ranked_append(a: Seq<Family>, b: Seq<Family>, lo: int, mid: int, hi: int)
    requires
        lo <= mid <= hi,
        ranked(a, lo, mid),
        ranked(b, mid, hi),
    ensures
        ranked(a + b, lo, hi),
{
    let c = a + b;
    assert forall|i: int| 0 <= i < c.len() implies lo <= #[trigger] name_rank(c[i].0) < hi by {
        if i < a.len() {
            assert(c[i] == a[i]);
            assert(lo <= name_rank(a[i].0) < mid);
        } else {
            assert(c[i] == b[i - a.len()]);
            assert(mid <= name_rank(b[i - a.len()].0) < hi);
        }
    }
    assert forall|i: int| 0 <= i < c.len() implies has_prefix(#[trigger] c[i].0, "node_"@) by {
        if i < a.len() {
            assert(c[i] == a[i]);
            assert(has_prefix(a[i].0, "node_"@));
        } else {
            assert(c[i] == b[i - a.len()]);
            assert(has_prefix(b[i - a.len()].0, "node_"@));
        }
    }
    assert forall|i: int, j: int| 0 <= i < j < c.len() implies name_rank(#[trigger] c[i].0) < name_rank(#[trigger] c[j].0) by {
        if j < a.len() {
            assert(c[i] == a[i] && c[j] == a[j]);
            assert(name_rank(a[i].0) < name_rank(a[j].0));
        } else if i >= a.len() {
            assert(c[i] == b[i - a.len()] && c[j] == b[j - a.len()]);
            assert(name_rank(b[i - a.len()].0) < name_rank(b[j - a.len()].0));
        } else {
            assert(c[i] == a[i] && c[j] == b[j - a.len()]);
            assert(name_rank(a[i].0) < mid);
            assert(mid <= name_rank(b[j - a.len()].0));
        }
    }
}

/// A single family whose name starts with `node_` and has rank `r` is
/// ranked in `r..r + 1`.
proof fn lemma_ranked_one(f: Family, r: int)
    requires
        name_rank(f.0) == r,
        has_prefix(f.0, "node_"@),
    ensures
        ranked(seq![f], r, r + 1),
{
    assert(seq![f][0] == f);
}

/// The empty run is ranked anywhere.
proof fn lemma_ranked_empty(lo: int, hi: int)
    ensures
        ranked(Seq::<Family>::empty(), lo, hi),
{
}

/// The memory family of an exposed field, if present, has the rank of that
/// field.
proof fn lemma_mem_family_ranked(m: Map<Seq<char>, u64>, field: Seq<char>, r: int)
    requires
        field.len() > 0,
        name_rank(crate::render::mem_metric(field)) == r,
        has_prefix(crate::render::mem_metric(field), "node_"@),
    ensures
        ranked(mem_family_of(m, field), r, r + 1),
{
    if m.contains_key(field) {
        lemma_ranked_one(mem_family_of(m, field)[0], r);
        assert(mem_family_of(m, field) =~= seq![mem_family_of(m, field)[0]]);
    }
}

/// Facts of the memory field names.
proof fn lemma_mem_metric_facts(field: Seq<char>)
    requires
        field.len() > 0,
    ensures
        crate::render::mem_metric(field).len() == 18 + field.len(),
        crate::render::mem_metric(field)[5] == 'm',
        crate::render::mem_metric(field)[12] == field[0],
        has_prefix(crate::render::mem_metric(field), "node_"@),
{
    reveal_strlit("node_memory_");
    reveal_strlit("_bytes");
    reveal_strlit("node_");
    let n = crate::render::mem_metric(field);
    assert(n.take(5) =~= "node_"@);
}

/// The CPU family and the memory families are ranked in `0..8`.
proof fn lemma_head_ranked(cpu: Seq<(Seq<char>, CpuTimes)>, mem: Map<Seq<char>, u64>)
    ensures
        ranked(seq![cpu_family(cpu)] + mem_families(mem), 0, 8),
{
    reveal_strlit("node_");
    reveal_strlit("node_cpu_seconds_total");
    assert(cpu_metric().take(5) =~= "node_"@);
    lemma_ranked_one(cpu_family(cpu), 0);
    let c = seq![cpu_family(cpu)];
    lemma_mem_ranked(mem);
    lemma_ranked_append(c, mem_families(mem), 0, 1, 8);
}

/// The memory families are ranked in `1..8`.
proof fn lemma_mem_ranked(mem: Map<Seq<char>, u64>)
    ensures
        ranked(mem_families(mem), 1, 8),
{
    reveal_strlit("MemTotal");
    reveal_strlit("MemFree");
    reveal_strlit("MemAvailable");
    reveal_strlit("Buffers");
    reveal_strlit("Cached");
    reveal_strlit("SwapTotal");
    reveal_strlit("SwapFree");
    lemma_mem_metric_facts("MemTotal"@);
    lemma_mem_metric_facts("MemFree"@);
    lemma_mem_metric_facts("MemAvailable"@);
    lemma_mem_metric_facts("Buffers"@);
    lemma_mem_metric_facts("Cached"@);
    lemma_mem_metric_facts("SwapTotal"@);
    lemma_mem_metric_facts("SwapFree"@);
    lemma_mem_family_ranked(mem, "MemTotal"@, 1);
    lemma_mem_family_ranked(mem, "MemFree"@, 2);
    lemma_mem_family_ranked(mem, "MemAvailable"@, 3);
    lemma_mem_family_ranked(mem, "Buffers"@, 4);
    lemma_mem_family_ranked(mem, "Cached"@, 5);
    lemma_mem_family_ranked(mem, "SwapTotal"@, 6);
    lemma_mem_family_ranked(mem, "SwapFree"@, 7);
    let m1 = mem_family_of(mem, "MemTotal"@);
    lemma_ranked_append(m1, mem_family_of(mem, "MemFree"@), 1, 2, 3);
    let m2 = m1 + mem_family_of(mem, "MemFree"@);
    lemma_ranked_append(m2, mem_family_of(mem, "MemAvailable"@), 1, 3, 4);
    let m3 = m2 + mem_family_of(mem, "MemAvailable"@);
    lemma_ranked_append(m3, mem_family_of(mem, "Buffers"@), 1, 4, 5);
    let m4 = m3 + mem_family_of(mem, "Buffers"@);
    lemma_ranked_append(m4, mem_family_of(mem, "Cached"@), 1, 5, 6);
    let m5 = m4 + mem_family_of(mem, "Cached"@);
    lemma_ranked_append(m5, mem_family_of(mem, "SwapTotal"@), 1, 6, 7);
    let m6 = m5 + mem_family_of(mem, "SwapTotal"@);
    lemma_ranked_append(m6, mem_family_of(mem, "SwapFree"@), 1, 7, 8);
}

/// The load average families are ranked in `8..11`.
proof fn lemma_load_ranked(load: Option<(Seq<char>, Seq<char>, Seq<char>)>)
    ensures
        ranked(load_families(load), 8, 11),
{
    reveal_strlit("node_");
    reveal_strlit("node_load1");
    reveal_strlit("node_load5");
    reveal_strlit("node_load15");
    match load {
        Some((a, b, d)) => {
            let f1 = value_family("node_load1"@, "1m load average."@, "gauge"@, a);
            let f5 = value_family("node_load5"@, "5m load average."@, "gauge"@, b);
            let f15 = value_family("node_load15"@, "15m load average."@, "gauge"@, d);
            assert(f1.0.take(5) =~= "node_"@);
            assert(f5.0.take(5) =~= "node_"@);
            assert(f15.0.take(5) =~= "node_"@);
            lemma_ranked_one(f1, 8);
            lemma_ranked_one(f5, 9);
            lemma_ranked_one(f15, 10);
            lemma_ranked_append(seq![f1], seq![f5], 8, 9, 10);
            lemma_ranked_append(seq![f1] + seq![f5], seq![f15], 8, 10, 11);
            assert(load_families(load) =~= seq![f1] + seq![f5] + seq![f15]);
        },
        None => {
            lemma_ranked_empty(8, 11);
        },
    }
}

/// The uptime family is ranked in `11..12`.
proof fn lemma_uptime_ranked(uptime: Option<Seq<char>>)
    ensures
        ranked(uptime_families(uptime), 11, 12),
{
    reveal_strlit("node_");
    reveal_strlit("node_time_seconds_uptime");
    match uptime {
        Some(v) => {
            let f = value_family("node_time_seconds_uptime"@, "Seconds since boot."@, "counter"@, v);
            assert(f.0.take(5) =~= "node_"@);
            lemma_ranked_one(f, 11);
        },
        None => {
            lemma_ranked_empty(11, 12);
        },
    }
}

/// The disk and network families are ranked in `12..18`.
proof fn lemma_tail_ranked(disk: Seq<(Seq<char>, DiskStats)>, net: Seq<(Seq<char>, NetDevStats)>)
    ensures
        ranked(
            seq![
                disk_family(DiskCounter::ReadsCompleted, disk),
                disk_family(DiskCounter::ReadBytes, disk),
                disk_family(DiskCounter::WritesCompleted, disk),
                disk_family(DiskCounter::WrittenBytes, disk),
                net_family(NetCounter::ReceiveBytes, net),
                net_family(NetCounter::TransmitBytes, net),
            ],
            12,
            18,
        ),
{
    reveal_strlit("node_");
    reveal_strlit("node_disk_reads_completed_total");
    reveal_strlit("node_disk_read_bytes_total");
    reveal_strlit("node_disk_writes_completed_total");
    reveal_strlit("node_disk_written_bytes_total");
    reveal_strlit("node_network_receive_bytes_total");
    reveal_strlit("node_network_transmit_bytes_total");
    let d0 = disk_family(DiskCounter::ReadsCompleted, disk);
    let d1 = disk_family(DiskCounter::ReadBytes, disk);
    let d2 = disk_family(DiskCounter::WritesCompleted, disk);
    let d3 = disk_family(DiskCounter::WrittenBytes, disk);
    let n0 = net_family(NetCounter::ReceiveBytes, net);
    let n1 = net_family(NetCounter::TransmitBytes, net);
    assert(d0.0.take(5) =~= "node_"@);
    assert(d1.0.take(5) =~= "node_"@);
    assert(d2.0.take(5) =~= "node_"@);
    assert(d3.0.take(5) =~= "node_"@);
    assert(n0.0.take(5) =~= "node_"@);
    assert(n1.0.take(5) =~= "node_"@);
    lemma_ranked_one(d0, 12);
    lemma_ranked_one(d1, 13);
    lemma_ranked_one(d2, 14);
    lemma_ranked_one(d3, 15);
    lemma_ranked_one(n0, 16);
    lemma_ranked_one(n1, 17);
    lemma_ranked_append(seq![d0], seq![d1], 12, 13, 14);
    lemma_ranked_append(seq![d0] + seq![d1], seq![d2], 12, 14, 15);
    lemma_ranked_append(seq![d0] + seq![d1] + seq![d2], seq![d3], 12, 15, 16);
    lemma_ranked_append(seq![d0] + seq![d1] + seq![d2] + seq![d3], seq![n0], 12, 16, 17);
    lemma_ranked_append(seq![d0] + seq![d1] + seq![d2] + seq![d3] + seq![n0], seq![n1], 12, 17, 18);
    assert(seq![d0, d1, d2, d3, n0, n1] =~= seq![d0] + seq![d1] + seq![d2] + seq![d3] + seq![n0]
        + seq![n1]);
}

/// Where there are no load averages, no family is one of theirs; where
/// there is no uptime, no family is the uptime's.
pub proof fn lemma_absent_values_have_no_family(
    cpu: Seq<(Seq<char>, CpuTimes)>,
    mem: Map<Seq<char>, u64>,
    load: Option<(Seq<char>, Seq<char>, Seq<char>)>,
    uptime: Option<Seq<char>>,
    disk: Seq<(Seq<char>, DiskStats)>,
    net: Seq<(Seq<char>, NetDevStats)>,
)
    ensures
        ({
            let fs = render_families(cpu, mem, load, uptime, disk, net);
            &&& load is None ==> forall|i: int| 0 <= i < fs.len() ==> {
                &&& #[trigger] fs[i].0 != "node_load1"@
                &&& fs[i].0 != "node_load5"@
                &&& fs[i].0 != "node_load15"@
            }
            &&& uptime is None ==> forall|i: int| 0 <= i < fs.len() ==> #[trigger] fs[i].0
                != "node_time_seconds_uptime"@
        }),
{
    let h = seq![cpu_family(cpu)] + mem_families(mem);
    let l = load_families(load);
    let u = uptime_families(uptime);
    let t = seq![
        disk_family(DiskCounter::ReadsCompleted, disk),
        disk_family(DiskCounter::ReadBytes, disk),
        disk_family(DiskCounter::WritesCompleted, disk),
        disk_family(DiskCounter::WrittenBytes, disk),
        net_family(NetCounter::ReceiveBytes, net),
        net_family(NetCounter::TransmitBytes, net),
    ];
    lemma_head_ranked(cpu, mem);
    lemma_load_ranked(load);
    lemma_uptime_ranked(uptime);
    lemma_tail_ranked(disk, net);
    let fs = render_families(cpu, mem, load, uptime, disk, net);
    assert(fs == h + l + u + t);
    reveal_strlit("node_load1");
    reveal_strlit("node_load5");
    reveal_strlit("node_load15");
    reveal_strlit("node_time_seconds_uptime");
    assert(name_rank("node_load1"@) == 8);
    assert(name_rank("node_load5"@) == 9);
    assert(name_rank("node_load15"@) == 10);
    assert(name_rank("node_time_seconds_uptime"@) == 11);
    if load is None {
        assert(l.len() == 0);
        assert forall|i: int| 0 <= i < fs.len() implies {
            &&& #[trigger] fs[i].0 != "node_load1"@
            &&& fs[i].0 != "node_load5"@
            &&& fs[i].0 != "node_load15"@
        } by {
            if i < h.len() {
                assert(fs[i] == h[i]);
                assert(name_rank(h[i].0) < 8);
            } else if i < h.len() + u.len() {
                assert(fs[i] == u[i - h.len()]);
                assert(name_rank(u[i - h.len()].0) >= 11);
            } else {
                assert(fs[i] == t[i - h.len() - u.len()]);
                assert(name_rank(t[i - h.len() - u.len()].0) >= 12);
            }
        }
    }
    if uptime is None {
        assert(u.len() == 0);
        assert forall|i: int| 0 <= i < fs.len() implies #[trigger] fs[i].0 != "node_time_seconds_uptime"@ by {
            if i < h.len() {
                assert(fs[i] == h[i]);
                assert(name_rank(h[i].0) < 8);
            } else if i < h.len() + l.len() {
                assert(fs[i] == l[i - h.len()]);
                assert(name_rank(l[i - h.len()].0) < 11);
            } else {
                assert(fs[i] == t[i - h.len() - l.len()]);
                assert(name_rank(t[i - h.len() - l.len()].0) >= 12);
            }
        }
    }
}

/// The families of the exposition have distinct names, each starting with
/// `node_`, in a fixed order of name: each family's `# HELP` and `# TYPE`
/// lines appear once, and no two families share a metric, so the samples of
/// a metric all stand together under its one header.
pub proof fn lemma_families_distinct(
    cpu: Seq<(Seq<char>, CpuTimes)>,
    mem: Map<Seq<char>, u64>,
    load: Option<(Seq<char>, Seq<char>, Seq<char>)>,
    uptime: Option<Seq<char>>,
    disk: Seq<(Seq<char>, DiskStats)>,
    net: Seq<(Seq<char>, NetDevStats)>,
)
    ensures
        ({
            let fs = render_families(cpu, mem, load, uptime, disk, net);
            &&& forall|i: int| 0 <= i < fs.len() ==> has_prefix(#[trigger] fs[i].0, "node_"@)
            &&& forall|i: int, j: int| 0 <= i < j < fs.len() ==> #[trigger] fs[i].0 != #[trigger] fs[j].0
        }),
{
    let h = seq![cpu_family(cpu)] + mem_families(mem);
    let l = load_families(load);
    let u = uptime_families(uptime);
    let t = seq![
        disk_family(DiskCounter::ReadsCompleted, disk),
        disk_family(DiskCounter::ReadBytes, disk),
        disk_family(DiskCounter::WritesCompleted, disk),
        disk_family(DiskCounter::WrittenBytes, disk),
        net_family(NetCounter::ReceiveBytes, net),
        net_family(NetCounter::TransmitBytes, net),
    ];
    lemma_head_ranked(cpu, mem);
    lemma_load_ranked(load);
    lemma_uptime_ranked(uptime);
    lemma_tail_ranked(disk, net);
    lemma_ranked_append(h, l, 0, 8, 11);
    lemma_ranked_append(h + l, u, 0, 11, 12);
    lemma_ranked_append(h + l + u, t, 0, 12, 18);
    let fs = render_families(cpu, mem, load, uptime, disk, net);
    assert(fs == h + l + u + t);
    assert forall|i: int, j: int| 0 <= i < j < fs.len() implies #[trigger] fs[i].0 != #[trigger] fs[j].0 by {
        assert(name_rank(fs[i].0) < name_rank(fs[j].0));
    }
}


/// The name of the `k`-th CPU mode, in the order in which they are listed.
pub open spec fn mode_name(k: int) -> Seq<char> {
    if k == 0 {
        "user"@
    } else if k == 1 {
        "nice"@
    } else if k == 2 {
        "system"@
    } else if k == 3 {
        "idle"@
    } else if k == 4 {
        "iowait"@
    } else if k == 5 {
        "irq"@
    } else if k == 6 {
        "softirq"@
    } else {
        "steal"@
    }
}

/// The ticks of the `k`-th CPU mode.
pub open spec fn mode_ticks(t: CpuTimes, k: int) -> u64 {
    if k == 0 {
        t.user
    } else if k == 1 {
        t.nice
    } else if k == 2 {
        t.system
    } else if k == 3 {
        t.idle
    } else if k == 4 {
        t.iowait
    } else if k == 5 {
        t.irq
    } else if k == 6 {
        t.softirq
    } else {
        t.steal
    }
}

/// The CPU family has exactly eight sample lines per core, in order of core
/// and then of mode: line `8 * i + k` is core `i`'s time in mode `k`.
pub proof fn lemma_cpu_samples_per_core(es: Seq<(Seq<char>, CpuTimes)>)
    ensures
        cpu_samples(es).len() == 8 * es.len(),
        forall|i: int, k: int|
            #![trigger es[i], mode_name(k)]
            0 <= i < es.len() && 0 <= k < 8 ==> cpu_samples(es)[8 * i + k] == cpu_line(
                es[i].0,
                mode_name(k),
                mode_ticks(es[i].1, k),
            ),
    decreases es.len(),
{
    if es.len() > 0 {
        let d = es.drop_last();
        lemma_cpu_samples_per_core(d);
        let p = cpu_samples(d);
        let cl = core_lines(es.last().0, es.last().1);
        assert forall|i: int, k: int|
            #![trigger es[i], mode_name(k)]
            0 <= i < es.len() && 0 <= k < 8 implies cpu_samples(es)[8 * i + k] == cpu_line(
                es[i].0,
                mode_name(k),
                mode_ticks(es[i].1, k),
            ) by {
            if i < es.len() - 1 {
                assert(d[i] == es[i]);
                assert(cpu_samples(es)[8 * i + k] == p[8 * i + k]);
            } else {
                assert(cpu_samples(es)[8 * i + k] == cl[k]);
            }
        }
    }
}


/// The lines of a family: its `# HELP` line, its `# TYPE` line, then its
/// sample lines.
pub open spec fn family_lines(f: Family) -> Seq<Seq<char>> {
    seq!["# HELP "@ + f.0 + seq![' '] + f.1, "# TYPE "@ + f.0 + seq![' '] + f.2] + f.3
}

/// The lines of the families `fs`, one family after the other.
pub open spec fn all_lines(fs: Seq<Family>) -> Seq<Seq<char>>
    decreases fs.len(),
{
    if fs.len() == 0 {
        Seq::<Seq<char>>::empty()
    } else {
        all_lines(fs.drop_last()) + family_lines(fs.last())
    }
}

/// Whether a line is a header or a sample line of a `node_` metric.
pub open spec fn is_node_line(l: Seq<char>) -> bool {
    ||| has_prefix(l, "# HELP node_"@)
    ||| has_prefix(l, "# TYPE node_"@)
    ||| has_prefix(l, "node_"@)
}

/// A family's text is the text of its lines.
proof fn lemma_family_text_is_lines(f: Family)
    ensures
        crate::render::family_text(f) == crate::render::lines_text(family_lines(f)),
{
    let h = "# HELP "@ + f.0 + seq![' '] + f.1;
    let t = "# TYPE "@ + f.0 + seq![' '] + f.2;
    crate::render::lemma_lines_text_push(Seq::<Seq<char>>::empty(), h);
    crate::render::lemma_lines_text_push(seq![h], t);
    assert(Seq::<Seq<char>>::empty().push(h) =~= seq![h]);
    assert(seq![h].push(t) =~= seq![h, t]);
    crate::render::lemma_lines_text_append(seq![h, t], f.3);
    assert(crate::render::family_text(f) =~= crate::render::lines_text(family_lines(f)));
}

/// The families' text is the text of all their lines.
proof fn lemma_families_text_is_lines(fs: Seq<Family>)
    ensures
        crate::render::families_text(fs) == crate::render::lines_text(all_lines(fs)),
    decreases fs.len(),
{
    if fs.len() > 0 {
        lemma_families_text_is_lines(fs.drop_last());
        lemma_family_text_is_lines(fs.last());
        crate::render::lemma_lines_text_append(all_lines(fs.drop_last()), family_lines(fs.last()));
    }
}

/// A prefix of a prefix is a prefix.
proof fn lemma_prefix_trans(s: Seq<char>, a: Seq<char>, b: Seq<char>)
    requires
        has_prefix(s, a),
        has_prefix(a, b),
    ensures
        has_prefix(s, b),
{
    assert(s.take(b.len() as int) =~= a.take(b.len() as int));
}

/// The lines of well-formed families named `node_...` are all `node_` lines.
proof fn lemma_all_lines_node(fs: Seq<Family>)
    requires
        forall|i: int| 0 <= i < fs.len() ==> has_prefix(#[trigger] fs[i].0, "node_"@),
        all_announced(fs),
    ensures
        forall|j: int| 0 <= j < all_lines(fs).len() ==> is_node_line(#[trigger] all_lines(fs)[j]),
    decreases fs.len(),
{
    if fs.len() > 0 {
        let d = fs.drop_last();
        assert forall|i: int| 0 <= i < d.len() implies has_prefix(#[trigger] d[i].0, "node_"@) && announced(d[i]) by {
            assert(d[i] == fs[i]);
        }
        lemma_all_lines_node(d);
        let f = fs.last();
        assert(has_prefix(fs[fs.len() - 1].0, "node_"@));
        assert(announced(fs[fs.len() - 1]));
        reveal_strlit("# HELP ");
        reveal_strlit("# TYPE ");
        reveal_strlit("node_");
        reveal_strlit("# HELP node_");
        reveal_strlit("# TYPE node_");
        let fl = family_lines(f);
        assert forall|j: int| 0 <= j < fl.len() implies is_node_line(#[trigger] fl[j]) by {
            if j == 0 {
                let h = "# HELP "@ + f.0 + seq![' '] + f.1;
                let p = "# HELP "@ + f.0;
                assert(f.0.take(5) == "node_"@);
                assert(p.take(12) =~= "# HELP "@ + f.0.take(5));
                assert("# HELP "@ + "node_"@ =~= "# HELP node_"@);
                assert(h.take(12) =~= p.take(12));
            } else if j == 1 {
                let t = "# TYPE "@ + f.0 + seq![' '] + f.2;
                let p = "# TYPE "@ + f.0;
                assert(f.0.take(5) == "node_"@);
                assert(p.take(12) =~= "# TYPE "@ + f.0.take(5));
                assert("# TYPE "@ + "node_"@ =~= "# TYPE node_"@);
                assert(t.take(12) =~= p.take(12));
            } else {
                assert(fl[j] == f.3[j - 2]);
                assert(is_sample_of(f.3[j - 2], f.0));
                lemma_prefix_trans(f.3[j - 2], f.0, "node_"@);
            }
        }
        let al = all_lines(fs);
        assert forall|j: int| 0 <= j < al.len() implies is_node_line(#[trigger] al[j]) by {
            if j < all_lines(d).len() {
                assert(al[j] == all_lines(d)[j]);
            } else {
                assert(al[j] == fl[j - all_lines(d).len()]);
            }
        }
    }
}

/// The exposition text is a run of lines, each ended by a line break, and
/// every one of them is a `# HELP node_...` line, a `# TYPE node_...` line or
/// a `node_...` sample line. (A name or value that itself holds a line break
/// is part of one of these lines.)
pub proof fn lemma_every_line_is_node_metric(
    cpu: Seq<(Seq<char>, CpuTimes)>,
    mem: Map<Seq<char>, u64>,
    load: Option<(Seq<char>, Seq<char>, Seq<char>)>,
    uptime: Option<Seq<char>>,
    disk: Seq<(Seq<char>, DiskStats)>,
    net: Seq<(Seq<char>, NetDevStats)>,
)
    ensures
        ({
            let ls = all_lines(render_families(cpu, mem, load, uptime, disk, net));
            &&& crate::render::render_text(cpu, mem, load, uptime, disk, net) == crate::render::lines_text(ls)
            &&& forall|j: int| 0 <= j < ls.len() ==> is_node_line(#[trigger] ls[j])
        }),
{
    let fs = render_families(cpu, mem, load, uptime, disk, net);
    lemma_families_text_is_lines(fs);
    lemma_every_sample_announced(cpu, mem, load, uptime, disk, net);
    lemma_families_distinct(cpu, mem, load, uptime, disk, net);
    lemma_all_lines_node(fs);
}


/// The disk families are the sixth- to third-last families of the
/// exposition, one per counter, and the sample line of device `i` in each
/// carries that device's own counter: reads completed in
/// `node_disk_reads_completed_total`, bytes read in
/// `node_disk_read_bytes_total`, writes completed in
/// `node_disk_writes_completed_total`, bytes written in
/// `node_disk_written_bytes_total`.
pub proof fn lemma_render_disk_values(
    cpu: Seq<(Seq<char>, CpuTimes)>,
    mem: Map<Seq<char>, u64>,
    load: Option<(Seq<char>, Seq<char>, Seq<char>)>,
    uptime: Option<Seq<char>>,
    disk: Seq<(Seq<char>, DiskStats)>,
    net: Seq<(Seq<char>, NetDevStats)>,
    i: int,
)
    requires
        0 <= i < disk.len(),
    ensures
        ({
            let fs = render_families(cpu, mem, load, uptime, disk, net);
            let n = fs.len();
            let dev = disk[i].0;
            let d = disk[i].1;
            &&& n >= 7
            &&& fs[n - 6].0 == "node_disk_reads_completed_total"@
            &&& fs[n - 6].3.len() == disk.len()
            &&& fs[n - 6].3[i] == "node_disk_reads_completed_total"@ + seq!['{'] + ("device=\""@ + dev
                + "\"} "@ + decimal(d.reads_completed as nat))
            &&& fs[n - 5].0 == "node_disk_read_bytes_total"@
            &&& fs[n - 5].3.len() == disk.len()
            &&& fs[n - 5].3[i] == "node_disk_read_bytes_total"@ + seq!['{'] + ("device=\""@ + dev
                + "\"} "@ + decimal(d.read_bytes as nat))
            &&& fs[n - 4].0 == "node_disk_writes_completed_total"@
            &&& fs[n - 4].3.len() == disk.len()
            &&& fs[n - 4].3[i] == "node_disk_writes_completed_total"@ + seq!['{'] + ("device=\""@ + dev
                + "\"} "@ + decimal(d.writes_completed as nat))
            &&& fs[n - 3].0 == "node_disk_written_bytes_total"@
            &&& fs[n - 3].3.len() == disk.len()
            &&& fs[n - 3].3[i] == "node_disk_written_bytes_total"@ + seq!['{'] + ("device=\""@ + dev
                + "\"} "@ + decimal(d.written_bytes as nat))
        }),
{
    let fs = render_families(cpu, mem, load, uptime, disk, net);
    let n = fs.len();
    let t = seq![
        disk_family(DiskCounter::ReadsCompleted, disk),
        disk_family(DiskCounter::ReadBytes, disk),
        disk_family(DiskCounter::WritesCompleted, disk),
        disk_family(DiskCounter::WrittenBytes, disk),
        net_family(NetCounter::ReceiveBytes, net),
        net_family(NetCounter::TransmitBytes, net),
    ];
    let h = seq![cpu_family(cpu)] + mem_families(mem) + load_families(load) + uptime_families(uptime);
    assert(fs == h + t);
    assert(fs[n - 6] == t[0]);
    assert(fs[n - 5] == t[1]);
    assert(fs[n - 4] == t[2]);
    assert(fs[n - 3] == t[3]);
}

/// The network families are the last two families of the exposition, and
/// the sample line of interface `i` in each carries that interface's own
/// counter: bytes received in `node_network_receive_bytes_total`, bytes
/// transmitted in `node_network_transmit_bytes_total`.
pub proof fn lemma_render_net_values(
    cpu: Seq<(Seq<char>, CpuTimes)>,
    mem: Map<Seq<char>, u64>,
    load: Option<(Seq<char>, Seq<char>, Seq<char>)>,
    uptime: Option<Seq<char>>,
    disk: Seq<(Seq<char>, DiskStats)>,
    net: Seq<(Seq<char>, NetDevStats)>,
    i: int,
)
    requires
        0 <= i < net.len(),
    ensures
        ({
            let fs = render_families(cpu, mem, load, uptime, disk, net);
            let n = fs.len();
            let dev = net[i].0;
            let d = net[i].1;
            &&& n >= 7
            &&& fs[n - 2].0 == "node_network_receive_bytes_total"@
            &&& fs[n - 2].3.len() == net.len()
            &&& fs[n - 2].3[i] == "node_network_receive_bytes_total"@ + seq!['{'] + ("device=\""@ + dev
                + "\"} "@ + decimal(d.receive_bytes as nat))
            &&& fs[n - 1].0 == "node_network_transmit_bytes_total"@
            &&& fs[n - 1].3.len() == net.len()
            &&& fs[n - 1].3[i] == "node_network_transmit_bytes_total"@ + seq!['{'] + ("device=\""@ + dev
                + "\"} "@ + decimal(d.transmit_bytes as nat))
        }),
{
    let fs = render_families(cpu, mem, load, uptime, disk, net);
    let n = fs.len();
    let t = seq![
        disk_family(DiskCounter::ReadsCompleted, disk),
        disk_family(DiskCounter::ReadBytes, disk),
        disk_family(DiskCounter::WritesCompleted, disk),
        disk_family(DiskCounter::WrittenBytes, disk),
        net_family(NetCounter::ReceiveBytes, net),
        net_family(NetCounter::TransmitBytes, net),
    ];
    let h = seq![cpu_family(cpu)] + mem_families(mem) + load_families(load) + uptime_families(uptime);
    assert(fs == h + t);
    assert(fs[n - 2] == t[4]);
    assert(fs[n - 1] == t[5]);
}


/// Whether some family of `fs` is named `name` and has exactly the sample
/// lines `samples`.
pub open spec fn has_family(fs: Seq<Family>, name: Seq<char>, samples: Seq<Seq<char>>) -> bool {
    exists|j: int| 0 <= j < fs.len() && #[trigger] fs[j].0 == name && fs[j].3 == samples
}

/// A family of either run is a family of both runs together.
pub broadcast proof fn lemma_has_family_concat(
    a: Seq<Family>,
    b: Seq<Family>,
    name: Seq<char>,
    samples: Seq<Seq<char>>,
)
    ensures
        (has_family(a, name, samples) || has_family(b, name, samples)) ==> #[trigger] has_family(
            a + b,
            name,
            samples,
        ),
{
    if has_family(a, name, samples) {
        let j = choose|j: int| 0 <= j < a.len() && #[trigger] a[j].0 == name && a[j].3 == samples;
        assert((a + b)[j] == a[j]);
    } else if has_family(b, name, samples) {
        let j = choose|j: int| 0 <= j < b.len() && #[trigger] b[j].0 == name && b[j].3 == samples;
        assert((a + b)[a.len() + j] == b[j]);
    }
}

/// A family with one single value sample is such a family of a run that
/// holds it alone.
proof fn lemma_has_value_family(f: Family, value: Seq<char>)
    requires
        f.3 == seq![f.0 + seq![' '] + value],
    ensures
        has_family(seq![f], f.0, seq![f.0 + seq![' '] + value]),
{
    assert(seq![f][0] == f);
}

/// Each exposed memory field that is present has a family of its own,
/// `node_memory_<field>_bytes`, whose one sample line carries the field's
/// value in bytes.
pub proof fn lemma_render_mem_values(
    cpu: Seq<(Seq<char>, CpuTimes)>,
    mem: Map<Seq<char>, u64>,
    load: Option<(Seq<char>, Seq<char>, Seq<char>)>,
    uptime: Option<Seq<char>>,
    disk: Seq<(Seq<char>, DiskStats)>,
    net: Seq<(Seq<char>, NetDevStats)>,
    field: Seq<char>,
)
    requires
        field == "MemTotal"@ || field == "MemFree"@ || field == "MemAvailable"@ || field == "Buffers"@
            || field == "Cached"@ || field == "SwapTotal"@ || field == "SwapFree"@,
        mem.contains_key(field),
    ensures
        has_family(
            render_families(cpu, mem, load, uptime, disk, net),
            "node_memory_"@ + field + "_bytes"@,
            seq!["node_memory_"@ + field + "_bytes"@ + seq![' '] + decimal(mem[field] as nat)],
        ),
{
    broadcast use lemma_has_family_concat;

    let name = "node_memory_"@ + field + "_bytes"@;
    let f = mem_family_of(mem, field)[0];
    assert(mem_family_of(mem, field) =~= seq![f]);
    lemma_has_value_family(f, decimal(mem[field] as nat));
}

/// Where there are load averages, each has a family of its own whose one
/// sample line carries it: the 1 minute average in `node_load1`, the 5
/// minute one in `node_load5`, the 15 minute one in `node_load15`; where
/// there is an uptime, it is the sample of `node_time_seconds_uptime`.
pub proof fn lemma_render_load_and_uptime_values(
    cpu: Seq<(Seq<char>, CpuTimes)>,
    mem: Map<Seq<char>, u64>,
    load: Option<(Seq<char>, Seq<char>, Seq<char>)>,
    uptime: Option<Seq<char>>,
    disk: Seq<(Seq<char>, DiskStats)>,
    net: Seq<(Seq<char>, NetDevStats)>,
)
    ensures
        load matches Some((l1, l5, l15)) ==> {
            let fs = render_families(cpu, mem, load, uptime, disk, net);
            &&& has_family(fs, "node_load1"@, seq!["node_load1"@ + seq![' '] + l1])
            &&& has_family(fs, "node_load5"@, seq!["node_load5"@ + seq![' '] + l5])
            &&& has_family(fs, "node_load15"@, seq!["node_load15"@ + seq![' '] + l15])
        },
        uptime matches Some(u) ==> has_family(
            render_families(cpu, mem, load, uptime, disk, net),
            "node_time_seconds_uptime"@,
            seq!["node_time_seconds_uptime"@ + seq![' '] + u],
        ),
{
    broadcast use lemma_has_family_concat;

    match load {
        Some((l1, l5, l15)) => {
            let lf = load_families(load);
            let a = value_family("node_load1"@, "1m load average."@, "gauge"@, l1);
            let b = value_family("node_load5"@, "5m load average."@, "gauge"@, l5);
            let c = value_family("node_load15"@, "15m load average."@, "gauge"@, l15);
            assert(lf =~= seq![a] + seq![b] + seq![c]);
            lemma_has_value_family(a, l1);
            lemma_has_value_family(b, l5);
            lemma_has_value_family(c, l15);
        },
        None => {},
    }
    match uptime {
        Some(u) => {
            let f = value_family("node_time_seconds_uptime"@, "Seconds since boot."@, "counter"@, u);
            assert(uptime_families(uptime) =~= seq![f]);
            lemma_has_value_family(f, u);
        },
        None => {},
    }
}


/// Whether `d`, after the whole seconds, writes the hundredths `r`: nothing
/// where `r` is 0, else a point and one or two digits, without a trailing
/// zero, that give `r` hundredths.
pub open spec fn hundredths_ok(d: Seq<char>, r: int) -> bool {
    if r == 0 {
        d.len() == 0
    } else {
        &&& 2 <= d.len() <= 3
        &&& d[0] == '.'
        &&& all_digits(d.skip(1))
        &&& d.last() != '0'
        &&& (if d.len() == 2 { digits_value(d.skip(1)) * 10 } else { digits_value(d.skip(1)) }) == r
    }
}

/// The seconds text of `ticks` reads back as `ticks / 100` seconds: its
/// whole part parses as `ticks / 100`, and the rest writes the hundredths
/// `ticks % 100` in the shortest way.
pub proof fn lemma_seconds_text_value(ticks: u64)
    ensures
        exists|k: int|
            0 <= k <= seconds_text(ticks).len() && parse_u64(#[trigger] seconds_text(ticks).take(k))
                == Some((ticks / 100) as u64) && hundredths_ok(seconds_text(ticks).skip(k), (ticks % 100) as int),
{
    let s = seconds_text(ticks);
    let w = decimal((ticks / 100) as nat);
    lemma_parse_decimal((ticks / 100) as u64);
    let k = w.len() as int;
    assert(s.take(k) =~= w);
    let d = s.skip(k);
    let frac = ticks % 100;
    lemma_digit_char((frac / 10) as nat);
    lemma_digit_char((frac % 10) as nat);
    if frac != 0 {
        let t = d.skip(1);
        if frac % 10 == 0 {
            assert(t =~= seq![digit_char((frac / 10) as nat)]);
            assert(t.drop_last() =~= Seq::<char>::empty());
            assert(digits_value(t) == digits_value(t.drop_last()) * 10 + digit_value(t.last()));
        } else {
            assert(t =~= seq![digit_char((frac / 10) as nat), digit_char((frac % 10) as nat)]);
            assert(t.drop_last() =~= seq![digit_char((frac / 10) as nat)]);
            assert(t.drop_last().drop_last() =~= Seq::<char>::empty());
            assert(digits_value(t.drop_last()) == digits_value(t.drop_last().drop_last()) * 10
                + digit_value(t.drop_last().last()));
            assert(digits_value(t) == digits_value(t.drop_last()) * 10 + digit_value(t.last()));
            assert(digit_char((frac % 10) as nat) != '0');
        }
        assert(hundredths_ok(d, frac as int));
    } else {
        assert(d =~= Seq::<char>::empty());
    }
    assert(parse_u64(s.take(k)) == Some((ticks / 100) as u64));
}

/// The CPU family comes first, named `node_cpu_seconds_total`, with eight
/// sample lines per core in order of core and then of mode: line `8 * i + k`
/// carries core `i`'s name, mode `k`'s name and the seconds of that mode's
/// own ticks.
pub proof fn lemma_render_cpu_values(
    cpu: Seq<(Seq<char>, CpuTimes)>,
    mem: Map<Seq<char>, u64>,
    load: Option<(Seq<char>, Seq<char>, Seq<char>)>,
    uptime: Option<Seq<char>>,
    disk: Seq<(Seq<char>, DiskStats)>,
    net: Seq<(Seq<char>, NetDevStats)>,
)
    ensures
        ({
            let fs = render_families(cpu, mem, load, uptime, disk, net);
            &&& fs[0].0 == "node_cpu_seconds_total"@
            &&& fs[0].3.len() == 8 * cpu.len()
            &&& forall|i: int, k: int|
                #![trigger cpu[i], mode_name(k)]
                0 <= i < cpu.len() && 0 <= k < 8 ==> fs[0].3[8 * i + k] == "node_cpu_seconds_total"@
                    + seq!['{'] + ("cpu=\""@ + cpu[i].0 + "\",mode=\""@ + mode_name(k) + "\"} "@
                    + seconds_text(mode_ticks(cpu[i].1, k)))
        }),
{
    let fs = render_families(cpu, mem, load, uptime, disk, net);
    assert(fs[0] == cpu_family(cpu));
    lemma_cpu_samples_per_core(cpu);
}

} // verus!
