//! The Prometheus text exposition of everything collected: the text is a
//! sequence of metric families, each announced by its own `# HELP` and
//! `# TYPE` lines and followed by its sample lines.
//! Metric names are those of `node_exporter`, so that dashboards built for
//! it work against this exporter too.

use vstd::prelude::*;
use crate::metric_map::MetricMap;
use crate::metrics::{CpuTimes, DiskStats, NetDevStats};
use crate::text::{decimal, digit_char, digit_to_char, push_char, push_decimal};

verus! {

/// The load averages over 1, 5 and 15 minutes, each as the text of its
/// sample value.
pub struct LoadAvgText {
    pub load1: String,
    pub load5: String,
    pub load15: String,
}

impl View for LoadAvgText {
    type V = (Seq<char>, Seq<char>, Seq<char>);

    open spec fn view(&self) -> (Seq<char>, Seq<char>, Seq<char>) {
        (self.load1@, self.load5@, self.load15@)
    }
}

/// A line break.
pub open spec fn nl() -> Seq<char> {
    seq!['\n']
}

/// The seconds of `ticks` clock ticks (`USER_HZ` = 100 per second), written
/// exactly as the shortest decimal: the whole seconds, then the hundredths
/// without trailing zeros, and no point where they are zero (`5132153` ticks
/// are `51321.53`, `150` are `1.5`, `100` are `1`).
pub open spec fn seconds_text(ticks: u64) -> Seq<char> {
    let whole = ticks / 100;
    let frac = ticks % 100;
    decimal(whole as nat) + if frac == 0 {
        Seq::<char>::empty()
    } else if frac % 10 == 0 {
        seq!['.', digit_char((frac / 10) as nat)]
    } else {
        seq!['.', digit_char((frac / 10) as nat), digit_char((frac % 10) as nat)]
    }
}

/// Appends `seconds_text(ticks)` to `out`.
fn push_seconds(out: &mut String, ticks: u64)
    ensures
        final(out)@ == old(out)@ + seconds_text(ticks),
{
    push_decimal(out, ticks / 100);
    let frac = ticks % 100;
    if frac != 0 {
        push_char(out, '.');
        push_char(out, digit_to_char(frac / 10));
        if frac % 10 != 0 {
            push_char(out, digit_to_char(frac % 10));
        }
    }
    assert(out@ =~= old(out)@ + seconds_text(ticks));
}

/// Appends the characters `v` to `out`.
fn push_chars(out: &mut String, v: &Vec<char>)
    ensures
        final(out)@ == old(out)@ + v@,
{
    let n = v.len();
    let ghost start = out@;
    for i in 0..n
        invariant
            n == v@.len(),
            out@ == start + v@.take(i as int),
    {
        push_char(out, v[i]);
        assert(v@.take(i + 1) == v@.take(i as int).push(v@[i as int]));
        assert(out@ =~= start + v@.take(i + 1));
    }
    assert(v@.take(n as int) == v@);
}

/// A metric family: its name, the text of its `# HELP` line, its type, and
/// its sample lines (each without its line break).
pub type Family = (Seq<char>, Seq<char>, Seq<char>, Seq<Seq<char>>);

/// The `# HELP` and `# TYPE` lines of the family `name`.
pub open spec fn header_text(name: Seq<char>, help: Seq<char>, kind: Seq<char>) -> Seq<char> {
    "# HELP "@ + name + seq![' '] + help + nl() + "# TYPE "@ + name + seq![' '] + kind + nl()
}

/// The lines `ls`, each ended by a line break.
pub open spec fn lines_text(ls: Seq<Seq<char>>) -> Seq<char>
    decreases ls.len(),
{
    if ls.len() == 0 {
        Seq::<char>::empty()
    } else {
        lines_text(ls.drop_last()) + ls.last() + nl()
    }
}

/// The text of a family: its header, then its sample lines.
pub open spec fn family_text(f: Family) -> Seq<char> {
    header_text(f.0, f.1, f.2) + lines_text(f.3)
}

/// The text of the families `fs`, one after the other.
pub open spec fn families_text(fs: Seq<Family>) -> Seq<char>
    decreases fs.len(),
{
    if fs.len() == 0 {
        Seq::<char>::empty()
    } else {
        families_text(fs.drop_last()) + family_text(fs.last())
    }
}

/// One more line adds that line and a line break.
pub proof fn lemma_lines_text_push(ls: Seq<Seq<char>>, l: Seq<char>)
    ensures
        lines_text(ls.push(l)) == lines_text(ls) + l + nl(),
{
    assert(ls.push(l).drop_last() =~= ls);
}

/// The text of two runs of lines is the text of each, one after the other.
pub proof fn lemma_lines_text_append(a: Seq<Seq<char>>, b: Seq<Seq<char>>)
    ensures
        lines_text(a + b) == lines_text(a) + lines_text(b),
    decreases b.len(),
{
    if b.len() == 0 {
        assert(a + b =~= a);
        assert(lines_text(a) + lines_text(b) =~= lines_text(a));
    } else {
        lemma_lines_text_append(a, b.drop_last());
        assert((a + b).drop_last() =~= a + b.drop_last());
        assert((a + b).last() == b.last());
        assert(lines_text(a + b) =~= lines_text(a) + lines_text(b));
    }
}

/// One more family adds that family's text.
pub proof fn lemma_families_text_push(fs: Seq<Family>, f: Family)
    ensures
        families_text(fs.push(f)) == families_text(fs) + family_text(f),
{
    assert(fs.push(f).drop_last() =~= fs);
}

/// The text of two runs of families is the text of each, one after the
/// other.
pub proof fn lemma_families_text_append(a: Seq<Family>, b: Seq<Family>)
    ensures
        families_text(a + b) == families_text(a) + families_text(b),
    decreases b.len(),
{
    if b.len() == 0 {
        assert(a + b =~= a);
        assert(families_text(a) + families_text(b) =~= families_text(a));
    } else {
        lemma_families_text_append(a, b.drop_last());
        assert((a + b).drop_last() =~= a + b.drop_last());
        assert((a + b).last() == b.last());
        assert(families_text(a + b) =~= families_text(a) + families_text(b));
    }
}

/// A sample line: the metric's name, then `sep` (`{` before labels, a space
/// before the value), then the rest.
pub open spec fn sample_line(name: Seq<char>, sep: char, rest: Seq<char>) -> Seq<char> {
    name + seq![sep] + rest
}

/// Appends `header_text(name@, help@, kind@)` to `out`.
fn push_header(out: &mut String, name: &str, help: &str, kind: &str)
    ensures
        final(out)@ == old(out)@ + header_text(name@, help@, kind@),
{
    out.append("# HELP ");
    out.append(name);
    push_char(out, ' ');
    out.append(help);
    push_char(out, '\n');
    out.append("# TYPE ");
    out.append(name);
    push_char(out, ' ');
    out.append(kind);
    push_char(out, '\n');
    assert(out@ =~= old(out)@ + header_text(name@, help@, kind@));
}

/// The name of the CPU time family.
pub open spec fn cpu_metric() -> Seq<char> {
    "node_cpu_seconds_total"@
}

/// The sample line of one core's time in one mode.
pub open spec fn cpu_line(core: Seq<char>, mode: Seq<char>, ticks: u64) -> Seq<char> {
    sample_line(
        cpu_metric(),
        '{',
        "cpu=\""@ + core + "\",mode=\""@ + mode + "\"} "@ + seconds_text(ticks),
    )
}

/// Appends `cpu_line(core@, mode@, ticks)` and a line break to `out`.
fn push_cpu_line(out: &mut String, core: &Vec<char>, mode: &str, ticks: u64)
    ensures
        final(out)@ == old(out)@ + cpu_line(core@, mode@, ticks) + nl(),
{
    out.append("node_cpu_seconds_total");
    push_char(out, '{');
    out.append("cpu=\"");
    push_chars(out, core);
    out.append("\",mode=\"");
    out.append(mode);
    out.append("\"} ");
    push_seconds(out, ticks);
    push_char(out, '\n');
    assert(out@ =~= old(out)@ + cpu_line(core@, mode@, ticks) + nl());
}

/// The eight sample lines of one core, one per mode, in the order user,
/// nice, system, idle, iowait, irq, softirq, steal.
pub open spec fn core_lines(core: Seq<char>, t: CpuTimes) -> Seq<Seq<char>> {
    seq![
        cpu_line(core, "user"@, t.user),
        cpu_line(core, "nice"@, t.nice),
        cpu_line(core, "system"@, t.system),
        cpu_line(core, "idle"@, t.idle),
        cpu_line(core, "iowait"@, t.iowait),
        cpu_line(core, "irq"@, t.irq),
        cpu_line(core, "softirq"@, t.softirq),
        cpu_line(core, "steal"@, t.steal),
    ]
}

/// Appends one more CPU line to text that holds the lines `ls`.
fn push_cpu_line_after(
    out: &mut String,
    core: &Vec<char>,
    mode: &str,
    ticks: u64,
    Ghost(start): Ghost<Seq<char>>,
    Ghost(ls): Ghost<Seq<Seq<char>>>,
)
    requires
        old(out)@ == start + lines_text(ls),
    ensures
        final(out)@ == start + lines_text(ls.push(cpu_line(core@, mode@, ticks))),
{
    push_cpu_line(out, core, mode, ticks);
    proof {
        lemma_lines_text_push(ls, cpu_line(core@, mode@, ticks));
        assert(out@ =~= start + lines_text(ls.push(cpu_line(core@, mode@, ticks))));
    }
}

/// Appends the lines of `core_lines(core@, *t)` to `out`.
fn push_core_lines(out: &mut String, core: &Vec<char>, t: &CpuTimes)
    ensures
        final(out)@ == old(out)@ + lines_text(core_lines(core@, *t)),
{
    let ghost start = out@;
    let ghost c = core@;
    let ghost l0 = Seq::<Seq<char>>::empty();
    assert(out@ =~= start + lines_text(l0));
    push_cpu_line_after(out, core, "user", t.user, Ghost(start), Ghost(l0));
    let ghost l1 = l0.push(cpu_line(c, "user"@, t.user));
    push_cpu_line_after(out, core, "nice", t.nice, Ghost(start), Ghost(l1));
    let ghost l2 = l1.push(cpu_line(c, "nice"@, t.nice));
    push_cpu_line_after(out, core, "system", t.system, Ghost(start), Ghost(l2));
    let ghost l3 = l2.push(cpu_line(c, "system"@, t.system));
    push_cpu_line_after(out, core, "idle", t.idle, Ghost(start), Ghost(l3));
    let ghost l4 = l3.push(cpu_line(c, "idle"@, t.idle));
    push_cpu_line_after(out, core, "iowait", t.iowait, Ghost(start), Ghost(l4));
    let ghost l5 = l4.push(cpu_line(c, "iowait"@, t.iowait));
    push_cpu_line_after(out, core, "irq", t.irq, Ghost(start), Ghost(l5));
    let ghost l6 = l5.push(cpu_line(c, "irq"@, t.irq));
    push_cpu_line_after(out, core, "softirq", t.softirq, Ghost(start), Ghost(l6));
    let ghost l7 = l6.push(cpu_line(c, "softirq"@, t.softirq));
    push_cpu_line_after(out, core, "steal", t.steal, Ghost(start), Ghost(l7));
    let ghost l8 = l7.push(cpu_line(c, "steal"@, t.steal));
    assert(l8 =~= core_lines(c, *t));
}

/// The sample lines of every core, in ascending order of core name.
pub open spec fn cpu_samples(es: Seq<(Seq<char>, CpuTimes)>) -> Seq<Seq<char>>
    decreases es.len(),
{
    if es.len() == 0 {
        Seq::<Seq<char>>::empty()
    } else {
        cpu_samples(es.drop_last()) + core_lines(es.last().0, es.last().1)
    }
}

/// The CPU time family.
pub open spec fn cpu_family(es: Seq<(Seq<char>, CpuTimes)>) -> Family {
    (cpu_metric(), "Seconds the CPU spent in each mode."@, "counter"@, cpu_samples(es))
}

/// Appends `family_text(cpu_family(cpu@))` to `out`.
fn push_cpu_family(out: &mut String, cpu: &MetricMap<CpuTimes>)
    ensures
        final(out)@ == old(out)@ + family_text(cpu_family(cpu@)),
{
    let ghost start = out@;
    push_header(out, "node_cpu_seconds_total", "Seconds the CPU spent in each mode.", "counter");
    let ghost h = out@;
    let n = cpu.len();
    assert(cpu_samples(cpu@.take(0)) =~= Seq::<Seq<char>>::empty());
    assert(h =~= h + lines_text(cpu_samples(cpu@.take(0))));
    for i in 0..n
        invariant
            n == cpu@.len(),
            out@ == h + lines_text(cpu_samples(cpu@.take(i as int))),
    {
        let (core, t) = cpu.entry_at(i);
        push_core_lines(out, core, t);
        proof {
            assert(cpu@.take(i + 1).drop_last() =~= cpu@.take(i as int));
            lemma_lines_text_append(cpu_samples(cpu@.take(i as int)), core_lines(core@, *t));
            assert(out@ =~= h + lines_text(cpu_samples(cpu@.take(i + 1))));
        }
    }
    assert(cpu@.take(n as int) == cpu@);
    assert(out@ =~= start + family_text(cpu_family(cpu@)));
}

/// The name of a memory field's family.
pub open spec fn mem_metric(field: Seq<char>) -> Seq<char> {
    "node_memory_"@ + field + "_bytes"@
}

/// The `# HELP` text of a memory field's family.
pub open spec fn mem_help(field: Seq<char>) -> Seq<char> {
    "Memory field "@ + field + " from /proc/meminfo, in bytes."@
}

/// A family with a single sample: the value text after the name.
pub open spec fn value_family(name: Seq<char>, help: Seq<char>, kind: Seq<char>, value: Seq<char>) -> Family {
    (name, help, kind, seq![sample_line(name, ' ', value)])
}

/// The family of one memory field, if the map has that field.
pub open spec fn mem_family_of(m: Map<Seq<char>, u64>, field: Seq<char>) -> Seq<Family> {
    if m.contains_key(field) {
        seq![value_family(mem_metric(field), mem_help(field), "gauge"@, decimal(m[field] as nat))]
    } else {
        Seq::<Family>::empty()
    }
}

/// The families of the memory fields that are exposed and present, in this
/// order: `MemTotal`, `MemFree`, `MemAvailable`, `Buffers`, `Cached`,
/// `SwapTotal`, `SwapFree`.
pub open spec fn mem_families(m: Map<Seq<char>, u64>) -> Seq<Family> {
    mem_family_of(m, "MemTotal"@) + mem_family_of(m, "MemFree"@) + mem_family_of(m, "MemAvailable"@)
        + mem_family_of(m, "Buffers"@) + mem_family_of(m, "Cached"@) + mem_family_of(
        m,
        "SwapTotal"@,
    ) + mem_family_of(m, "SwapFree"@)
}

/// The text of a single family.
proof fn lemma_families_text_one(f: Family)
    ensures
        families_text(seq![f]) == family_text(f),
{
    lemma_families_text_push(Seq::<Family>::empty(), f);
    assert(Seq::<Family>::empty().push(f) =~= seq![f]);
    assert(families_text(Seq::<Family>::empty()) + family_text(f) =~= family_text(f));
}

/// The text of a single line.
proof fn lemma_lines_text_one(l: Seq<char>)
    ensures
        lines_text(seq![l]) == l + nl(),
{
    lemma_lines_text_push(Seq::<Seq<char>>::empty(), l);
    assert(Seq::<Seq<char>>::empty().push(l) =~= seq![l]);
    assert(lines_text(Seq::<Seq<char>>::empty()) + l + nl() =~= l + nl());
}

/// Appends `families_text(mem_family_of(mem.as_map(), field@))` to `out`.
fn push_mem_family(out: &mut String, mem: &MetricMap<u64>, field: &str)
    ensures
        final(out)@ == old(out)@ + families_text(mem_family_of(mem.as_map(), field@)),
{
    match mem.get(field) {
        Some(v) => {
            let name = String::from_str("node_memory_").concat(field).concat("_bytes");
            let help = String::from_str("Memory field ").concat(field).concat(
                " from /proc/meminfo, in bytes.",
            );
            push_header(out, name.as_str(), help.as_str(), "gauge");
            out.append(name.as_str());
            push_char(out, ' ');
            push_decimal(out, *v);
            push_char(out, '\n');
            proof {
                let f = value_family(mem_metric(field@), mem_help(field@), "gauge"@, decimal(*v as nat));
                lemma_families_text_one(f);
                lemma_lines_text_one(sample_line(mem_metric(field@), ' ', decimal(*v as nat)));
                assert(out@ =~= old(out)@ + families_text(mem_family_of(mem.as_map(), field@)));
            }
        },
        None => {
            assert(out@ =~= old(out)@ + families_text(mem_family_of(mem.as_map(), field@)));
        },
    }
}

/// Appends one more memory field's family, if present, to text that holds
/// the families `fs`.
fn push_mem_family_after(
    out: &mut String,
    mem: &MetricMap<u64>,
    field: &str,
    Ghost(start): Ghost<Seq<char>>,
    Ghost(fs): Ghost<Seq<Family>>,
)
    requires
        old(out)@ == start + families_text(fs),
    ensures
        final(out)@ == start + families_text(fs + mem_family_of(mem.as_map(), field@)),
{
    push_mem_family(out, mem, field);
    proof {
        lemma_families_text_append(fs, mem_family_of(mem.as_map(), field@));
        assert(out@ =~= start + families_text(fs + mem_family_of(mem.as_map(), field@)));
    }
}

/// Appends `families_text(mem_families(mem.as_map()))` to `out`.
fn push_mem_families(out: &mut String, mem: &MetricMap<u64>)
    ensures
        final(out)@ == old(out)@ + families_text(mem_families(mem.as_map())),
{
    let ghost start = out@;
    let ghost m = mem.as_map();
    let ghost a0 = Seq::<Family>::empty();
    assert(out@ =~= start + families_text(a0));
    push_mem_family_after(out, mem, "MemTotal", Ghost(start), Ghost(a0));
    let ghost a1 = a0 + mem_family_of(m, "MemTotal"@);
    push_mem_family_after(out, mem, "MemFree", Ghost(start), Ghost(a1));
    let ghost a2 = a1 + mem_family_of(m, "MemFree"@);
    push_mem_family_after(out, mem, "MemAvailable", Ghost(start), Ghost(a2));
    let ghost a3 = a2 + mem_family_of(m, "MemAvailable"@);
    push_mem_family_after(out, mem, "Buffers", Ghost(start), Ghost(a3));
    let ghost a4 = a3 + mem_family_of(m, "Buffers"@);
    push_mem_family_after(out, mem, "Cached", Ghost(start), Ghost(a4));
    let ghost a5 = a4 + mem_family_of(m, "Cached"@);
    push_mem_family_after(out, mem, "SwapTotal", Ghost(start), Ghost(a5));
    let ghost a6 = a5 + mem_family_of(m, "SwapTotal"@);
    push_mem_family_after(out, mem, "SwapFree", Ghost(start), Ghost(a6));
    let ghost a7 = a6 + mem_family_of(m, "SwapFree"@);
    assert(a7 =~= mem_families(m));
}

/// Appends `family_text(value_family(name@, help@, kind@, value@))` to `out`.
fn push_value_family(out: &mut String, name: &str, help: &str, kind: &str, value: &str)
    ensures
        final(out)@ == old(out)@ + family_text(value_family(name@, help@, kind@, value@)),
{
    push_header(out, name, help, kind);
    out.append(name);
    push_char(out, ' ');
    out.append(value);
    push_char(out, '\n');
    proof {
        lemma_lines_text_one(sample_line(name@, ' ', value@));
        assert(out@ =~= old(out)@ + family_text(value_family(name@, help@, kind@, value@)));
    }
}

/// The three load average families, where there are load averages.
pub open spec fn load_families(load: Option<(Seq<char>, Seq<char>, Seq<char>)>) -> Seq<Family> {
    match load {
        None => Seq::<Family>::empty(),
        Some((l1, l5, l15)) => seq![
            value_family("node_load1"@, "1m load average."@, "gauge"@, l1),
            value_family("node_load5"@, "5m load average."@, "gauge"@, l5),
            value_family("node_load15"@, "15m load average."@, "gauge"@, l15),
        ],
    }
}

/// The view of an optional value.
pub open spec fn opt_view<T: View>(o: Option<T>) -> Option<T::V> {
    match o {
        Some(x) => Some(x@),
        None => None,
    }
}

/// Appends the text of `load_families` of `load` to `out`.
fn push_load_families(out: &mut String, load: &Option<LoadAvgText>)
    ensures
        final(out)@ == old(out)@ + families_text(load_families(opt_view(*load))),
{
    match load {
        None => {
            assert(out@ =~= old(out)@ + families_text(load_families(opt_view(*load))));
        },
        Some(l) => {
            let ghost start = out@;
            push_value_family(out, "node_load1", "1m load average.", "gauge", l.load1.as_str());
            push_value_family(out, "node_load5", "5m load average.", "gauge", l.load5.as_str());
            push_value_family(out, "node_load15", "15m load average.", "gauge", l.load15.as_str());
            proof {
                let f1 = value_family("node_load1"@, "1m load average."@, "gauge"@, l.load1@);
                let f5 = value_family("node_load5"@, "5m load average."@, "gauge"@, l.load5@);
                let f15 = value_family("node_load15"@, "15m load average."@, "gauge"@, l.load15@);
                lemma_families_text_one(f1);
                lemma_families_text_push(seq![f1], f5);
                lemma_families_text_push(seq![f1].push(f5), f15);
                assert(seq![f1].push(f5).push(f15) =~= load_families(opt_view(*load)));
                assert(out@ =~= start + families_text(load_families(opt_view(*load))));
            }
        },
    }
}

/// The uptime family, where there is an uptime.
pub open spec fn uptime_families(uptime: Option<Seq<char>>) -> Seq<Family> {
    match uptime {
        None => Seq::<Family>::empty(),
        Some(u) => seq![value_family("node_time_seconds_uptime"@, "Seconds since boot."@, "counter"@, u)],
    }
}

/// Appends the text of `uptime_families` of `uptime` to `out`.
fn push_uptime_families(out: &mut String, uptime: &Option<String>)
    ensures
        final(out)@ == old(out)@ + families_text(uptime_families(opt_view(*uptime))),
{
    match uptime {
        None => {
            assert(out@ =~= old(out)@ + families_text(uptime_families(opt_view(*uptime))));
        },
        Some(u) => {
            push_value_family(out, "node_time_seconds_uptime", "Seconds since boot.", "counter", u.as_str());
            proof {
                lemma_families_text_one(
                    value_family("node_time_seconds_uptime"@, "Seconds since boot."@, "counter"@, u@),
                );
            }
        },
    }
}

/// The sample line of one device's (or interface's) counter.
pub open spec fn device_line(metric: Seq<char>, device: Seq<char>, value: u64) -> Seq<char> {
    sample_line(metric, '{', "device=\""@ + device + "\"} "@ + decimal(value as nat))
}

/// Appends `device_line(metric@, device@, value)` and a line break to `out`.
fn push_device_line(out: &mut String, metric: &str, device: &Vec<char>, value: u64)
    ensures
        final(out)@ == old(out)@ + device_line(metric@, device@, value) + nl(),
{
    out.append(metric);
    push_char(out, '{');
    out.append("device=\"");
    push_chars(out, device);
    out.append("\"} ");
    push_decimal(out, value);
    push_char(out, '\n');
    assert(out@ =~= old(out)@ + device_line(metric@, device@, value) + nl());
}

/// The counters reported per block device.
#[derive(Clone, Copy)]
pub enum DiskCounter {
    ReadsCompleted,
    ReadBytes,
    WritesCompleted,
    WrittenBytes,
}

/// The metric name of a disk counter.
pub open spec fn disk_metric(c: DiskCounter) -> Seq<char> {
    match c {
        DiskCounter::ReadsCompleted => "node_disk_reads_completed_total"@,
        DiskCounter::ReadBytes => "node_disk_read_bytes_total"@,
        DiskCounter::WritesCompleted => "node_disk_writes_completed_total"@,
        DiskCounter::WrittenBytes => "node_disk_written_bytes_total"@,
    }
}

/// The `# HELP` text of a disk counter's family.
pub open spec fn disk_help(c: DiskCounter) -> Seq<char> {
    match c {
        DiskCounter::ReadsCompleted => "Reads completed per device."@,
        DiskCounter::ReadBytes => "Bytes read per device."@,
        DiskCounter::WritesCompleted => "Writes completed per device."@,
        DiskCounter::WrittenBytes => "Bytes written per device."@,
    }
}

/// The value of a disk counter in a device's statistics.
pub open spec fn disk_value(c: DiskCounter, d: DiskStats) -> u64 {
    match c {
        DiskCounter::ReadsCompleted => d.reads_completed,
        DiskCounter::ReadBytes => d.read_bytes,
        DiskCounter::WritesCompleted => d.writes_completed,
        DiskCounter::WrittenBytes => d.written_bytes,
    }
}

/// One sample line per device, in ascending order of device name.
pub open spec fn disk_lines(c: DiskCounter, es: Seq<(Seq<char>, DiskStats)>) -> Seq<Seq<char>> {
    Seq::new(es.len(), |i: int| device_line(disk_metric(c), es[i].0, disk_value(c, es[i].1)))
}

/// A disk counter's family.
pub open spec fn disk_family(c: DiskCounter, es: Seq<(Seq<char>, DiskStats)>) -> Family {
    (disk_metric(c), disk_help(c), "counter"@, disk_lines(c, es))
}

/// Appends `family_text(disk_family(c, disk@))` to `out`.
fn push_disk_family(out: &mut String, disk: &MetricMap<DiskStats>, c: DiskCounter)
    ensures
        final(out)@ == old(out)@ + family_text(disk_family(c, disk@)),
{
    let ghost start = out@;
    let metric: &str = match c {
        DiskCounter::ReadsCompleted => {
            push_header(out, "node_disk_reads_completed_total", "Reads completed per device.", "counter");
            "node_disk_reads_completed_total"
        },
        DiskCounter::ReadBytes => {
            push_header(out, "node_disk_read_bytes_total", "Bytes read per device.", "counter");
            "node_disk_read_bytes_total"
        },
        DiskCounter::WritesCompleted => {
            push_header(out, "node_disk_writes_completed_total", "Writes completed per device.", "counter");
            "node_disk_writes_completed_total"
        },
        DiskCounter::WrittenBytes => {
            push_header(out, "node_disk_written_bytes_total", "Bytes written per device.", "counter");
            "node_disk_written_bytes_total"
        },
    };
    let ghost h = out@;
    assert(h == start + header_text(disk_metric(c), disk_help(c), "counter"@));
    let n = disk.len();
    assert(disk_lines(c, disk@.take(0)) =~= Seq::<Seq<char>>::empty());
    assert(h =~= h + lines_text(disk_lines(c, disk@.take(0))));
    for i in 0..n
        invariant
            n == disk@.len(),
            metric@ == disk_metric(c),
            out@ == h + lines_text(disk_lines(c, disk@.take(i as int))),
    {
        let (dev, d) = disk.entry_at(i);
        let v = match c {
            DiskCounter::ReadsCompleted => d.reads_completed,
            DiskCounter::ReadBytes => d.read_bytes,
            DiskCounter::WritesCompleted => d.writes_completed,
            DiskCounter::WrittenBytes => d.written_bytes,
        };
        push_device_line(out, metric, dev, v);
        proof {
            let l = device_line(disk_metric(c), dev@, v);
            assert(disk_lines(c, disk@.take(i + 1)) =~= disk_lines(c, disk@.take(i as int)).push(l));
            lemma_lines_text_push(disk_lines(c, disk@.take(i as int)), l);
        }
    }
    assert(disk@.take(n as int) == disk@);
    assert(out@ =~= start + family_text(disk_family(c, disk@)));
}

/// The counters reported per network interface.
#[derive(Clone, Copy)]
pub enum NetCounter {
    ReceiveBytes,
    TransmitBytes,
}

/// The metric name of a network counter.
pub open spec fn net_metric(c: NetCounter) -> Seq<char> {
    match c {
        NetCounter::ReceiveBytes => "node_network_receive_bytes_total"@,
        NetCounter::TransmitBytes => "node_network_transmit_bytes_total"@,
    }
}

/// The `# HELP` text of a network counter's family.
pub open spec fn net_help(c: NetCounter) -> Seq<char> {
    match c {
        NetCounter::ReceiveBytes => "Bytes received per interface."@,
        NetCounter::TransmitBytes => "Bytes transmitted per interface."@,
    }
}

/// The value of a network counter in an interface's statistics.
pub open spec fn net_value(c: NetCounter, n: NetDevStats) -> u64 {
    match c {
        NetCounter::ReceiveBytes => n.receive_bytes,
        NetCounter::TransmitBytes => n.transmit_bytes,
    }
}

/// One sample line per interface, in ascending order of interface name.
pub open spec fn net_lines(c: NetCounter, es: Seq<(Seq<char>, NetDevStats)>) -> Seq<Seq<char>> {
    Seq::new(es.len(), |i: int| device_line(net_metric(c), es[i].0, net_value(c, es[i].1)))
}

/// A network counter's family.
pub open spec fn net_family(c: NetCounter, es: Seq<(Seq<char>, NetDevStats)>) -> Family {
    (net_metric(c), net_help(c), "counter"@, net_lines(c, es))
}

/// Appends `family_text(net_family(c, net@))` to `out`.
fn push_net_family(out: &mut String, net: &MetricMap<NetDevStats>, c: NetCounter)
    ensures
        final(out)@ == old(out)@ + family_text(net_family(c, net@)),
{
    let ghost start = out@;
    let metric: &str = match c {
        NetCounter::ReceiveBytes => {
            push_header(out, "node_network_receive_bytes_total", "Bytes received per interface.", "counter");
            "node_network_receive_bytes_total"
        },
        NetCounter::TransmitBytes => {
            push_header(out, "node_network_transmit_bytes_total", "Bytes transmitted per interface.", "counter");
            "node_network_transmit_bytes_total"
        },
    };
    let ghost h = out@;
    assert(h == start + header_text(net_metric(c), net_help(c), "counter"@));
    let n = net.len();
    assert(net_lines(c, net@.take(0)) =~= Seq::<Seq<char>>::empty());
    assert(h =~= h + lines_text(net_lines(c, net@.take(0))));
    for i in 0..n
        invariant
            n == net@.len(),
            metric@ == net_metric(c),
            out@ == h + lines_text(net_lines(c, net@.take(i as int))),
    {
        let (dev, st) = net.entry_at(i);
        let v = match c {
            NetCounter::ReceiveBytes => st.receive_bytes,
            NetCounter::TransmitBytes => st.transmit_bytes,
        };
        push_device_line(out, metric, dev, v);
        proof {
            let l = device_line(net_metric(c), dev@, v);
            assert(net_lines(c, net@.take(i + 1)) =~= net_lines(c, net@.take(i as int)).push(l));
            lemma_lines_text_push(net_lines(c, net@.take(i as int)), l);
        }
    }
    assert(net@.take(n as int) == net@);
    assert(out@ =~= start + family_text(net_family(c, net@)));
}

/// The families of the exposition, in order: CPU seconds per core and mode,
/// each exposed memory field that is present, the load averages and the
/// uptime where they are given, the four disk counters and the two network
/// counters.
pub open spec fn render_families(
    cpu: Seq<(Seq<char>, CpuTimes)>,
    mem: Map<Seq<char>, u64>,
    load: Option<(Seq<char>, Seq<char>, Seq<char>)>,
    uptime: Option<Seq<char>>,
    disk: Seq<(Seq<char>, DiskStats)>,
    net: Seq<(Seq<char>, NetDevStats)>,
) -> Seq<Family> {
    seq![cpu_family(cpu)] + mem_families(mem) + load_families(load) + uptime_families(uptime)
        + seq![
        disk_family(DiskCounter::ReadsCompleted, disk),
        disk_family(DiskCounter::ReadBytes, disk),
        disk_family(DiskCounter::WritesCompleted, disk),
        disk_family(DiskCounter::WrittenBytes, disk),
        net_family(NetCounter::ReceiveBytes, net),
        net_family(NetCounter::TransmitBytes, net),
    ]
}

/// The whole exposition text: the text of each family of `render_families`,
/// one after the other.
pub open spec fn render_text(
    cpu: Seq<(Seq<char>, CpuTimes)>,
    mem: Map<Seq<char>, u64>,
    load: Option<(Seq<char>, Seq<char>, Seq<char>)>,
    uptime: Option<Seq<char>>,
    disk: Seq<(Seq<char>, DiskStats)>,
    net: Seq<(Seq<char>, NetDevStats)>,
) -> Seq<char> {
    families_text(render_families(cpu, mem, load, uptime, disk, net))
}

/// Renders everything collected into the Prometheus text exposition format.
/// `load` and `uptime` carry the text of their sample values.
pub fn render(
    cpu: &MetricMap<CpuTimes>,
    mem: &MetricMap<u64>,
    load: Option<LoadAvgText>,
    uptime: Option<String>,
    disk: &MetricMap<DiskStats>,
    net: &MetricMap<NetDevStats>,
) -> (out: String)
    ensures
        out@ == render_text(cpu@, mem.as_map(), opt_view(load), opt_view(uptime), disk@, net@),
{
    let mut out = String::new();
    let ghost mut fs = Seq::<Family>::empty();
    assert(out@ =~= families_text(fs));
    push_cpu_family(&mut out, cpu);
    proof {
        lemma_families_text_push(fs, cpu_family(cpu@));
        fs = fs.push(cpu_family(cpu@));
    }
    push_mem_families(&mut out, mem);
    proof {
        lemma_families_text_append(fs, mem_families(mem.as_map()));
        fs = fs + mem_families(mem.as_map());
    }
    push_load_families(&mut out, &load);
    proof {
        lemma_families_text_append(fs, load_families(opt_view(load)));
        fs = fs + load_families(opt_view(load));
    }
    push_uptime_families(&mut out, &uptime);
    proof {
        lemma_families_text_append(fs, uptime_families(opt_view(uptime)));
        fs = fs + uptime_families(opt_view(uptime));
    }
    push_disk_family(&mut out, disk, DiskCounter::ReadsCompleted);
    proof {
        lemma_families_text_push(fs, disk_family(DiskCounter::ReadsCompleted, disk@));
        fs = fs.push(disk_family(DiskCounter::ReadsCompleted, disk@));
    }
    push_disk_family(&mut out, disk, DiskCounter::ReadBytes);
    proof {
        lemma_families_text_push(fs, disk_family(DiskCounter::ReadBytes, disk@));
        fs = fs.push(disk_family(DiskCounter::ReadBytes, disk@));
    }
    push_disk_family(&mut out, disk, DiskCounter::WritesCompleted);
    proof {
        lemma_families_text_push(fs, disk_family(DiskCounter::WritesCompleted, disk@));
        fs = fs.push(disk_family(DiskCounter::WritesCompleted, disk@));
    }
    push_disk_family(&mut out, disk, DiskCounter::WrittenBytes);
    proof {
        lemma_families_text_push(fs, disk_family(DiskCounter::WrittenBytes, disk@));
        fs = fs.push(disk_family(DiskCounter::WrittenBytes, disk@));
    }
    push_net_family(&mut out, net, NetCounter::ReceiveBytes);
    proof {
        lemma_families_text_push(fs, net_family(NetCounter::ReceiveBytes, net@));
        fs = fs.push(net_family(NetCounter::ReceiveBytes, net@));
    }
    push_net_family(&mut out, net, NetCounter::TransmitBytes);
    proof {
        lemma_families_text_push(fs, net_family(NetCounter::TransmitBytes, net@));
        fs = fs.push(net_family(NetCounter::TransmitBytes, net@));
        assert(fs =~= render_families(cpu@, mem.as_map(), opt_view(load), opt_view(uptime), disk@, net@));
    }
    out
}

} // verus!
