//! Parsers for the text of `/proc` files: each takes a file's contents and
//! returns what the exporter reports of it, keyed by name.

use vstd::prelude::*;
use crate::metric_map::{ascending_entries, MetricMap};
use crate::text::{
    all_digits, find_ws, has_prefix, is_digit, is_ws, lemma_ws_end, ws_end, lines, parse_u64, parse_u64_chars, sat_mul, saturating_mul,
    split_lines, split_once, split_once_chars, split_words, starts_with, string_from_chars,
    sub_chars, to_chars, trim, trim_chars, views, words, lemma_trim_clean,
};

verus! {

/// Clock ticks ("jiffies") per second in which `/proc/stat` counts CPU time.
/// Not read from `sysconf(_SC_CLK_TCK)`: it is 100 on effectively every Linux
/// system, and a kernel built with another `USER_HZ` would have its CPU
/// seconds scaled wrongly.
pub const USER_HZ: u64 = 100;

/// Bytes per sector in `/proc/diskstats`: the kernel's own unit, not the
/// device's physical sector size.
pub const SECTOR_BYTES: u64 = 512;

/// Bytes per kB in `/proc/meminfo`.
pub const KB_BYTES: u64 = 1024;

/// Time one CPU core spent in each mode, in clock ticks; a mode's seconds are
/// its ticks divided by `USER_HZ`.
#[derive(Debug, Clone, Copy, Default, PartialEq, Eq, Structural)]
pub struct CpuTimes {
    pub user: u64,
    pub nice: u64,
    pub system: u64,
    pub idle: u64,
    pub iowait: u64,
    pub irq: u64,
    pub softirq: u64,
    pub steal: u64,
}

/// Completed operations and bytes moved for one block device.
#[derive(Debug, Clone, Copy, Default, PartialEq, Eq, Structural)]
pub struct DiskStats {
    pub reads_completed: u64,
    pub read_bytes: u64,
    pub writes_completed: u64,
    pub written_bytes: u64,
}

/// Bytes received and transmitted by one network interface.
#[derive(Debug, Clone, Copy, Default, PartialEq, Eq, Structural)]
pub struct NetDevStats {
    pub receive_bytes: u64,
    pub transmit_bytes: u64,
}

/// The map built by going through `ls` in order and, for each line that `f`
/// turns into an entry, mapping its key to its value (so a later line with
/// the same key wins).
pub open spec fn fold_entries<T>(
    ls: Seq<Seq<char>>,
    f: spec_fn(Seq<char>) -> Option<(Seq<char>, T)>,
) -> Map<Seq<char>, T>
    decreases ls.len(),
{
    if ls.len() == 0 {
        Map::empty()
    } else {
        let m = fold_entries(ls.drop_last(), f);
        match f(ls.last()) {
            Some((k, v)) => m.insert(k, v),
            None => m,
        }
    }
}

/// The numbers among the words `ws`, in order: each word that parses as a
/// `u64`, the others dropped.
pub open spec fn numbers(ws: Seq<Seq<char>>) -> Seq<u64>
    decreases ws.len(),
{
    if ws.len() == 0 {
        seq![]
    } else {
        let r = numbers(ws.drop_last());
        match parse_u64(ws.last()) {
            Some(n) => r.push(n),
            None => r,
        }
    }
}

/// The numbers among the words `ws[from..]`.
fn parse_numbers(ws: &Vec<Vec<char>>, from: usize) -> (r: Vec<u64>)
    requires
        from <= ws@.len(),
    ensures
        r@ == numbers(views(ws@).skip(from as int)),
{
    let ghost w = views(ws@);
    let mut r: Vec<u64> = Vec::new();
    let n = ws.len();
    let mut i: usize = from;
    assert(w.subrange(from as int, from as int) =~= Seq::<Seq<char>>::empty());
    while i < n
        invariant
            n == ws@.len(),
            w == views(ws@),
            from <= i <= n,
            r@ == numbers(w.subrange(from as int, i as int)),
        decreases n - i,
    {
        assert(w.subrange(from as int, i + 1).drop_last() == w.subrange(from as int, i as int));
        assert(w.subrange(from as int, i + 1).last() == ws@[i as int]@);
        match parse_u64_chars(ws[i].as_slice()) {
            Some(x) => r.push(x),
            None => {},
        }
        i = i + 1;
    }
    assert(w.subrange(from as int, n as int) == w.skip(from as int));
    r
}

/// The characters `c`, `p`, `u`.
pub open spec fn cpu_prefix() -> Seq<char> {
    seq!['c', 'p', 'u']
}

/// What a line of `/proc/stat` contributes: a per-core line `cpu<N><s>`,
/// whose core number `N` (non-empty, all digits) runs from right after `cpu`
/// up to the first white space, gives core `N` and the first eight of the
/// words of `s` that are numbers. Lines that do not start with `cpu`, the
/// aggregate `cpu` line (nothing or white space right after `cpu`, so no core
/// number), lines whose core is not all digits and lines with fewer than
/// eight numbers give nothing.
pub open spec fn stat_entry(line: Seq<char>) -> Option<(Seq<char>, CpuTimes)> {
    if !has_prefix(line, cpu_prefix()) {
        None
    } else {
        let rest = line.skip(3);
        let core = rest.take(ws_end(rest));
        if core.len() == 0 || !all_digits(core) {
            None
        } else {
            let f = numbers(words(rest.skip(ws_end(rest))));
            if f.len() < 8 {
                None
            } else {
                Some(
                    (
                        core,
                        CpuTimes {
                            user: f[0],
                            nice: f[1],
                            system: f[2],
                            idle: f[3],
                            iowait: f[4],
                            irq: f[5],
                            softirq: f[6],
                            steal: f[7],
                        },
                    ),
                )
            }
        }
    }
}

/// The per-core CPU times that `/proc/stat`'s contents give.
pub open spec fn stat_map(contents: Seq<char>) -> Map<Seq<char>, CpuTimes> {
    fold_entries(lines(contents), |l: Seq<char>| stat_entry(l))
}

/// What one line of `/proc/stat` gives.
fn stat_line(line: &Vec<char>) -> (r: Option<(Vec<char>, CpuTimes)>)
    ensures
        match r {
            Some((k, t)) => stat_entry(line@) == Some((k@, t)),
            None => stat_entry(line@) is None,
        },
{
    let n = line.len();
    if !(n >= 3 && line[0] == 'c' && line[1] == 'p' && line[2] == 'u') {
        proof {
            if has_prefix(line@, cpu_prefix()) {
                assert(line@.take(3)[0] == 'c' && line@.take(3)[1] == 'p' && line@.take(3)[2] == 'u');
            }
        }
        return None;
    }
    assert(line@.take(3) =~= cpu_prefix());
    let rest = sub_chars(line.as_slice(), 3, n);
    assert(rest@ == line@.skip(3));
    let e = find_ws(rest.as_slice());
    proof {
        lemma_ws_end(rest@);
    }
    let core = sub_chars(rest.as_slice(), 0, e);
    assert(core@ == rest@.take(e as int));
    let m = core.len();
    if m == 0 {
        return None;
    }
    for i in 0..m
        invariant
            m == core@.len(),
            has_prefix(line@, cpu_prefix()),
            core@ == line@.skip(3).take(ws_end(line@.skip(3))),
            forall|j: int| 0 <= j < i ==> #[trigger] is_digit(core@[j]),
    {
        let c = core[i];
        if !('0' <= c && c <= '9') {
            assert(!is_digit(core@[i as int]));
            assert(!all_digits(core@));
            return None;
        }
    }
    let tail = sub_chars(rest.as_slice(), e, rest.len());
    assert(tail@ == rest@.skip(e as int));
    let ws = split_words(tail.as_slice());
    let f = parse_numbers(&ws, 0);
    assert(views(ws@).skip(0) == views(ws@));
    if f.len() < 8 {
        return None;
    }
    let t = CpuTimes {
        user: f[0],
        nice: f[1],
        system: f[2],
        idle: f[3],
        iowait: f[4],
        irq: f[5],
        softirq: f[6],
        steal: f[7],
    };
    Some((core, t))
}

/// Parses `/proc/stat`'s per-core `cpuN` lines into the time each core spent
/// in each mode, keyed by the core's number. The aggregate `cpu` line, with
/// no number, is skipped: it is the sum of the per-core lines, and counters
/// are summed downstream, not double counted here.
pub fn parse_stat(contents: &str) -> (m: MetricMap<CpuTimes>)
    ensures
        m.as_map() == stat_map(contents@),
        m@ == ascending_entries(stat_map(contents@)),
{
    let text = to_chars(contents);
    let ls = split_lines(&text);
    let ghost lv = views(ls@);
    let mut m: MetricMap<CpuTimes> = MetricMap::new();
    let n = ls.len();
    for i in 0..n
        invariant
            n == ls@.len(),
            lv == views(ls@),
            lv == lines(contents@),
            m.as_map() == fold_entries(lv.take(i as int), |l: Seq<char>| stat_entry(l)),
            m@ == ascending_entries(m.as_map()),
    {
        assert(lv.take(i + 1).drop_last() == lv.take(i as int));
        assert(lv.take(i + 1).last() == ls@[i as int]@);
        match stat_line(&ls[i]) {
            Some((k, t)) => m.insert_chars(k, t),
            None => {},
        }
    }
    assert(lv.take(n as int) == lv);
    m
}


/// What a line of `/proc/meminfo` contributes: the name before the first
/// `':'`, and the first word after it read as kB and given in bytes
/// (saturating at `u64::MAX`). A line without `':'`, or whose first word
/// after it is missing or not a number, gives nothing.
pub open spec fn meminfo_entry(line: Seq<char>) -> Option<(Seq<char>, u64)> {
    match split_once(line, ':') {
        None => None,
        Some((key, rest)) => {
            let ws = words(rest);
            if ws.len() == 0 {
                None
            } else {
                match parse_u64(ws[0]) {
                    None => None,
                    Some(kb) => Some((key, sat_mul(kb, KB_BYTES))),
                }
            }
        },
    }
}

/// The memory statistics, in bytes, that `/proc/meminfo`'s contents give.
pub open spec fn meminfo_map(contents: Seq<char>) -> Map<Seq<char>, u64> {
    fold_entries(lines(contents), |l: Seq<char>| meminfo_entry(l))
}

/// What one line of `/proc/meminfo` gives.
fn meminfo_line(line: &Vec<char>) -> (r: Option<(Vec<char>, u64)>)
    ensures
        match r {
            Some((k, v)) => meminfo_entry(line@) == Some((k@, v)),
            None => meminfo_entry(line@) is None,
        },
{
    match split_once_chars(line.as_slice(), ':') {
        None => None,
        Some((key, rest)) => {
            let ws = split_words(rest.as_slice());
            if ws.len() == 0 {
                return None;
            }
            assert(ws@[0]@ == words(rest@)[0]);
            match parse_u64_chars(ws[0].as_slice()) {
                None => None,
                Some(kb) => Some((key, saturating_mul(kb, KB_BYTES))),
            }
        },
    }
}

/// Parses `/proc/meminfo`, whose values are in kB, into bytes keyed by the
/// field's name verbatim (`MemTotal`, `MemFree`, ...), so that callers pick
/// which fields to expose.
pub fn parse_meminfo(contents: &str) -> (m: MetricMap<u64>)
    ensures
        m.as_map() == meminfo_map(contents@),
        m@ == ascending_entries(meminfo_map(contents@)),
{
    let text = to_chars(contents);
    let ls = split_lines(&text);
    let ghost lv = views(ls@);
    let mut m: MetricMap<u64> = MetricMap::new();
    let n = ls.len();
    for i in 0..n
        invariant
            n == ls@.len(),
            lv == views(ls@),
            lv == lines(contents@),
            m.as_map() == fold_entries(lv.take(i as int), |l: Seq<char>| meminfo_entry(l)),
            m@ == ascending_entries(m.as_map()),
    {
        assert(lv.take(i + 1).drop_last() == lv.take(i as int));
        assert(lv.take(i + 1).last() == ls@[i as int]@);
        match meminfo_line(&ls[i]) {
            Some((k, v)) => m.insert_chars(k, v),
            None => {},
        }
    }
    assert(lv.take(n as int) == lv);
    m
}

/// The characters `l`, `o`, `o`, `p`.
pub open spec fn loop_prefix() -> Seq<char> {
    seq!['l', 'o', 'o', 'p']
}

/// The characters `r`, `a`, `m`.
pub open spec fn ram_prefix() -> Seq<char> {
    seq!['r', 'a', 'm']
}

/// The value of a word that parses as a `u64`, else 0.
pub open spec fn number_or_zero(w: Seq<char>) -> u64 {
    match parse_u64(w) {
        Some(n) => n,
        None => 0,
    }
}

/// What a line of `/proc/diskstats` contributes: a line of at least ten
/// words gives the device named by its third word, with reads completed
/// (fourth word), sectors read (sixth) in bytes, writes completed (eighth)
/// and sectors written (tenth) in bytes; a word that is not a number counts
/// 0, and bytes saturate at `u64::MAX`. Devices named `loop...` or `ram...`
/// are skipped, as virtual devices that nobody graphs (a real device named
/// so would be skipped too).
pub open spec fn diskstats_entry(line: Seq<char>) -> Option<(Seq<char>, DiskStats)> {
    let f = words(line);
    if f.len() < 10 {
        None
    } else if has_prefix(f[2], loop_prefix()) || has_prefix(f[2], ram_prefix()) {
        None
    } else {
        Some(
            (
                f[2],
                DiskStats {
                    reads_completed: number_or_zero(f[3]),
                    read_bytes: sat_mul(number_or_zero(f[5]), SECTOR_BYTES),
                    writes_completed: number_or_zero(f[7]),
                    written_bytes: sat_mul(number_or_zero(f[9]), SECTOR_BYTES),
                },
            ),
        )
    }
}

/// The per-device statistics that `/proc/diskstats`'s contents give.
pub open spec fn diskstats_map(contents: Seq<char>) -> Map<Seq<char>, DiskStats> {
    fold_entries(lines(contents), |l: Seq<char>| diskstats_entry(l))
}

/// The value of the word `w` if it parses as a `u64`, else 0.
fn word_number_or_zero(w: &Vec<char>) -> (n: u64)
    ensures
        n == number_or_zero(w@),
{
    match parse_u64_chars(w.as_slice()) {
        Some(n) => n,
        None => 0,
    }
}

/// What one line of `/proc/diskstats` gives.
fn diskstats_line(line: &Vec<char>) -> (r: Option<(Vec<char>, DiskStats)>)
    ensures
        match r {
            Some((k, d)) => diskstats_entry(line@) == Some((k@, d)),
            None => diskstats_entry(line@) is None,
        },
{
    let f = split_words(line.as_slice());
    let ghost fv = views(f@);
    if f.len() < 10 {
        return None;
    }
    assert(f@[2]@ == fv[2] && f@[3]@ == fv[3] && f@[5]@ == fv[5] && f@[7]@ == fv[7] && f@[9]@ == fv[9]);
    let loop_p: [char; 4] = ['l', 'o', 'o', 'p'];
    let ram_p: [char; 3] = ['r', 'a', 'm'];
    assert(loop_p@ =~= loop_prefix());
    assert(ram_p@ =~= ram_prefix());
    if starts_with(f[2].as_slice(), loop_p.as_slice()) || starts_with(f[2].as_slice(), ram_p.as_slice()) {
        return None;
    }
    let d = DiskStats {
        reads_completed: word_number_or_zero(&f[3]),
        read_bytes: saturating_mul(word_number_or_zero(&f[5]), SECTOR_BYTES),
        writes_completed: word_number_or_zero(&f[7]),
        written_bytes: saturating_mul(word_number_or_zero(&f[9]), SECTOR_BYTES),
    };
    let name = sub_chars(f[2].as_slice(), 0, f[2].len());
    assert(name@ == f@[2]@);
    Some((name, d))
}

/// Parses `/proc/diskstats` into per-device reads, writes and bytes moved,
/// keyed by device name; sector counts become bytes. Devices named `loopN`
/// or `ramN` are skipped.
pub fn parse_diskstats(contents: &str) -> (m: MetricMap<DiskStats>)
    ensures
        m.as_map() == diskstats_map(contents@),
        m@ == ascending_entries(diskstats_map(contents@)),
{
    let text = to_chars(contents);
    let ls = split_lines(&text);
    let ghost lv = views(ls@);
    let mut m: MetricMap<DiskStats> = MetricMap::new();
    let n = ls.len();
    for i in 0..n
        invariant
            n == ls@.len(),
            lv == views(ls@),
            lv == lines(contents@),
            m.as_map() == fold_entries(lv.take(i as int), |l: Seq<char>| diskstats_entry(l)),
            m@ == ascending_entries(m.as_map()),
    {
        assert(lv.take(i + 1).drop_last() == lv.take(i as int));
        assert(lv.take(i + 1).last() == ls@[i as int]@);
        match diskstats_line(&ls[i]) {
            Some((k, d)) => m.insert_chars(k, d),
            None => {},
        }
    }
    assert(lv.take(n as int) == lv);
    m
}

/// The lines of `/proc/net/dev` after its two header lines.
pub open spec fn after_header(ls: Seq<Seq<char>>) -> Seq<Seq<char>> {
    if ls.len() >= 2 {
        ls.skip(2)
    } else {
        seq![]
    }
}

/// What a line of `/proc/net/dev` contributes: the interface named before
/// the first `':'` (trimmed), with the first and ninth of the numbers after
/// it as bytes received and transmitted. A line without `':'`, or with
/// fewer than sixteen numbers after it, gives nothing.
pub open spec fn net_dev_entry(line: Seq<char>) -> Option<(Seq<char>, NetDevStats)> {
    match split_once(line, ':') {
        None => None,
        Some((name, rest)) => {
            let f = numbers(words(rest));
            if f.len() < 16 {
                None
            } else {
                Some((trim(name), NetDevStats { receive_bytes: f[0], transmit_bytes: f[8] }))
            }
        },
    }
}

/// The per-interface statistics that `/proc/net/dev`'s contents give.
pub open spec fn net_dev_map(contents: Seq<char>) -> Map<Seq<char>, NetDevStats> {
    fold_entries(after_header(lines(contents)), |l: Seq<char>| net_dev_entry(l))
}

/// What one line of `/proc/net/dev` gives.
fn net_dev_line(line: &Vec<char>) -> (r: Option<(Vec<char>, NetDevStats)>)
    ensures
        match r {
            Some((k, d)) => net_dev_entry(line@) == Some((k@, d)),
            None => net_dev_entry(line@) is None,
        },
{
    match split_once_chars(line.as_slice(), ':') {
        None => None,
        Some((name, rest)) => {
            let ws = split_words(rest.as_slice());
            let f = parse_numbers(&ws, 0);
            assert(views(ws@).skip(0) == views(ws@));
            if f.len() < 16 {
                return None;
            }
            let key = trim_chars(name.as_slice());
            Some((key, NetDevStats { receive_bytes: f[0], transmit_bytes: f[8] }))
        },
    }
}

/// Parses `/proc/net/dev` into bytes received and transmitted per
/// interface, keyed by interface name; the two header lines are skipped.
pub fn parse_net_dev(contents: &str) -> (m: MetricMap<NetDevStats>)
    ensures
        m.as_map() == net_dev_map(contents@),
        m@ == ascending_entries(net_dev_map(contents@)),
{
    let text = to_chars(contents);
    let ls = split_lines(&text);
    let ghost lv = views(ls@);
    let ghost body = after_header(lv);
    let mut m: MetricMap<NetDevStats> = MetricMap::new();
    let n = ls.len();
    if n < 2 {
        assert(body == Seq::<Seq<char>>::empty());
        assert(body.take(0) == body);
        return m;
    }
    for i in 2..n
        invariant
            2 <= n,
            n == ls@.len(),
            lv == views(ls@),
            lv == lines(contents@),
            body == lv.skip(2),
            m.as_map() == fold_entries(body.take(i - 2), |l: Seq<char>| net_dev_entry(l)),
            m@ == ascending_entries(m.as_map()),
    {
        assert(body.take(i - 1).drop_last() == body.take(i - 2));
        assert(body.take(i - 1).last() == ls@[i as int]@);
        match net_dev_line(&ls[i]) {
            Some((k, d)) => m.insert_chars(k, d),
            None => {},
        }
    }
    assert(body.take(n - 2) == body);
    m
}


/// The first `n` words of `contents` (all of them where there are fewer), as
/// `String`s: the fields of `/proc/loadavg` and `/proc/uptime`, whose values
/// the caller reads as floating-point numbers.
pub fn leading_words(contents: &str, n: usize) -> (r: Vec<String>)
    ensures
        r@.len() == if words(contents@).len() < n { words(contents@).len() } else { n as nat },
        forall|i: int| 0 <= i < r@.len() ==> #[trigger] r@[i]@ == words(contents@)[i],
{
    let text = to_chars(contents);
    let ws = split_words(text.as_slice());
    let k = if ws.len() < n { ws.len() } else { n };
    let mut r: Vec<String> = Vec::new();
    for i in 0..k
        invariant
            k <= ws@.len(),
            views(ws@) == words(contents@),
            r@.len() == i,
            forall|j: int| 0 <= j < i ==> #[trigger] r@[j]@ == words(contents@)[j],
    {
        let w = string_from_chars(ws[i].as_slice());
        assert(ws@[i as int]@ == words(contents@)[i as int]);
        r.push(w);
    }
    r
}


/// Whether `p` holds of the entry `e`, if there is one.
pub open spec fn entry_satisfies<T>(e: Option<(Seq<char>, T)>, p: spec_fn(Seq<char>, T) -> bool) -> bool {
    match e {
        Some((k, v)) => p(k, v),
        None => true,
    }
}

/// What holds of every entry that `f` gives holds of every entry of the map
/// folded from any lines.
pub proof fn lemma_fold_entries_all<T>(
    ls: Seq<Seq<char>>,
    f: spec_fn(Seq<char>) -> Option<(Seq<char>, T)>,
    p: spec_fn(Seq<char>, T) -> bool,
)
    requires
        forall|l: Seq<char>| entry_satisfies(#[trigger] f(l), p),
    ensures
        forall|k: Seq<char>| #[trigger] fold_entries(ls, f).contains_key(k) ==> p(k, fold_entries(ls, f)[k]),
    decreases ls.len(),
{
    if ls.len() > 0 {
        lemma_fold_entries_all(ls.drop_last(), f, p);
        let m = fold_entries(ls.drop_last(), f);
        assert(entry_satisfies(f(ls.last()), p));
        match f(ls.last()) {
            Some((k0, v0)) => {
                assert forall|k: Seq<char>| #[trigger] fold_entries(ls, f).contains_key(k) implies p(k, fold_entries(ls, f)[k]) by {
                    if k != k0 {
                        assert(m.contains_key(k));
                    }
                }
            },
            None => {},
        }
    }
}

/// Whether `line` is the line of core `k`: `cpu`, then `k`, then nothing or
/// white space.
pub open spec fn is_core_line(line: Seq<char>, k: Seq<char>) -> bool {
    &&& has_prefix(line, cpu_prefix() + k)
    &&& (line.len() == 3 + k.len() || is_ws(line[3 + k.len() as int]))
}

/// A line that gives core `k` is a line of core `k`, and `k` is a non-empty
/// string of digits.
pub proof fn lemma_stat_entry_core_line(l: Seq<char>)
    ensures
        stat_entry(l) matches Some((k, t)) ==> is_core_line(l, k) && k.len() > 0 && all_digits(k),
{
    if let Some((k, t)) = stat_entry(l) {
        let rest = l.skip(3);
        lemma_ws_end(rest);
        let e = ws_end(rest);
        assert(k == rest.take(e));
        assert(l.take(3 + k.len() as int) =~= cpu_prefix() + k);
        if e < rest.len() {
            assert(l[3 + k.len() as int] == rest[e]);
        }
    }
}

/// What holds of the entry of every line of `ls` holds of every entry of
/// the map folded from them.
pub proof fn lemma_fold_entries_from_lines<T>(
    ls: Seq<Seq<char>>,
    f: spec_fn(Seq<char>) -> Option<(Seq<char>, T)>,
    p: spec_fn(Seq<char>, T) -> bool,
)
    requires
        forall|i: int| 0 <= i < ls.len() ==> entry_satisfies(#[trigger] f(ls[i]), p),
    ensures
        forall|k: Seq<char>| #[trigger] fold_entries(ls, f).contains_key(k) ==> p(k, fold_entries(ls, f)[k]),
    decreases ls.len(),
{
    if ls.len() > 0 {
        let d = ls.drop_last();
        assert forall|i: int| 0 <= i < d.len() implies entry_satisfies(#[trigger] f(d[i]), p) by {
            assert(d[i] == ls[i]);
        }
        lemma_fold_entries_from_lines(d, f, p);
        let m = fold_entries(d, f);
        assert(entry_satisfies(f(ls[ls.len() - 1]), p));
        match f(ls.last()) {
            Some((k0, v0)) => {
                assert forall|k: Seq<char>| #[trigger] fold_entries(ls, f).contains_key(k) implies p(k, fold_entries(ls, f)[k]) by {
                    if k != k0 {
                        assert(m.contains_key(k));
                    }
                }
            },
            None => {},
        }
    }
}

/// `/proc/stat` gives only numbered cores, each from a line of its own: every
/// key is a non-empty string of digits `k`, and some line of the contents is
/// `cpu`, then `k`, then nothing or white space. So the aggregate `cpu` line
/// never shows up as an entry, whatever white space follows `cpu`.
pub proof fn lemma_stat_keys_are_core_numbers(contents: Seq<char>)
    ensures
        forall|k: Seq<char>| #[trigger] stat_map(contents).contains_key(k) ==> {
            &&& k.len() > 0
            &&& all_digits(k)
            &&& exists|j: int| 0 <= j < lines(contents).len() && is_core_line(#[trigger] lines(contents)[j], k)
        },
{
    let ls = lines(contents);
    let f = |l: Seq<char>| stat_entry(l);
    let p = |k: Seq<char>, t: CpuTimes| {
        &&& k.len() > 0
        &&& all_digits(k)
        &&& exists|j: int| 0 <= j < ls.len() && is_core_line(#[trigger] ls[j], k)
    };
    assert forall|i: int| 0 <= i < ls.len() implies entry_satisfies(#[trigger] f(ls[i]), p) by {
        lemma_stat_entry_core_line(ls[i]);
        if let Some((k, t)) = stat_entry(ls[i]) {
            assert(is_core_line(ls[i], k));
        }
    }
    lemma_fold_entries_from_lines(ls, f, p);
}

/// `/proc/diskstats` never gives a device named `loop...` or `ram...`.
pub proof fn lemma_diskstats_skips_virtual_devices(contents: Seq<char>)
    ensures
        forall|k: Seq<char>| #[trigger] diskstats_map(contents).contains_key(k)
            ==> !has_prefix(k, loop_prefix()) && !has_prefix(k, ram_prefix()),
{
    let f = |l: Seq<char>| diskstats_entry(l);
    let p = |k: Seq<char>, d: DiskStats| !has_prefix(k, loop_prefix()) && !has_prefix(k, ram_prefix());
    assert forall|l: Seq<char>| entry_satisfies(#[trigger] f(l), p) by {
    }
    lemma_fold_entries_all(lines(contents), f, p);
}

/// `/proc/diskstats` byte counts are whole sectors: each is a multiple of
/// `SECTOR_BYTES`, or `u64::MAX` where the count saturated.
pub proof fn lemma_diskstats_whole_sectors(contents: Seq<char>)
    ensures
        forall|k: Seq<char>| #[trigger] diskstats_map(contents).contains_key(k) ==> {
            let d = diskstats_map(contents)[k];
            &&& (d.read_bytes % SECTOR_BYTES == 0 || d.read_bytes == u64::MAX)
            &&& (d.written_bytes % SECTOR_BYTES == 0 || d.written_bytes == u64::MAX)
        },
{
    let f = |l: Seq<char>| diskstats_entry(l);
    let p = |k: Seq<char>, d: DiskStats| {
        &&& (d.read_bytes % SECTOR_BYTES == 0 || d.read_bytes == u64::MAX)
        &&& (d.written_bytes % SECTOR_BYTES == 0 || d.written_bytes == u64::MAX)
    };
    assert forall|l: Seq<char>| entry_satisfies(#[trigger] f(l), p) by {
        let w = words(l);
        if f(l) is Some {
            let a = number_or_zero(w[5]);
            let b = number_or_zero(w[9]);
            assert((a * 512) % 512 == 0) by (nonlinear_arith);
            assert((b * 512) % 512 == 0) by (nonlinear_arith);
        }
    }
    lemma_fold_entries_all(lines(contents), f, p);
}

/// `/proc/meminfo` values are whole kB: each is a multiple of `KB_BYTES`,
/// or `u64::MAX` where the value saturated.
pub proof fn lemma_meminfo_whole_kb(contents: Seq<char>)
    ensures
        forall|k: Seq<char>| #[trigger] meminfo_map(contents).contains_key(k) ==> {
            let v = meminfo_map(contents)[k];
            v % KB_BYTES == 0 || v == u64::MAX
        },
{
    let f = |l: Seq<char>| meminfo_entry(l);
    let p = |k: Seq<char>, v: u64| v % KB_BYTES == 0 || v == u64::MAX;
    assert forall|l: Seq<char>| entry_satisfies(#[trigger] f(l), p) by {
        if let Some((key, rest)) = split_once(l, ':') {
            let ws = words(rest);
            if ws.len() > 0 {
                if let Some(kb) = parse_u64(ws[0]) {
                    assert((kb * 1024) % 1024 == 0) by (nonlinear_arith);
                }
            }
        }
    }
    lemma_fold_entries_all(lines(contents), f, p);
}


/// A line gives at most one entry: the map folded from `ls` has at most as
/// many keys as there are lines.
pub proof fn lemma_fold_entries_len<T>(ls: Seq<Seq<char>>, f: spec_fn(Seq<char>) -> Option<(Seq<char>, T)>)
    ensures
        fold_entries(ls, f).dom().finite(),
        fold_entries(ls, f).len() <= ls.len(),
    decreases ls.len(),
{
    if ls.len() > 0 {
        lemma_fold_entries_len(ls.drop_last(), f);
        let m = fold_entries(ls.drop_last(), f);
        match f(ls.last()) {
            Some((k, v)) => {
                assert(m.insert(k, v).dom() == m.dom().insert(k));
            },
            None => {},
        }
    }
}

/// `/proc/stat` gives at most one core per line.
pub proof fn lemma_stat_at_most_one_entry_per_line(contents: Seq<char>)
    ensures
        stat_map(contents).len() <= lines(contents).len(),
{
    lemma_fold_entries_len(lines(contents), |l: Seq<char>| stat_entry(l));
}

/// `/proc/meminfo` gives at most one field per line.
pub proof fn lemma_meminfo_at_most_one_entry_per_line(contents: Seq<char>)
    ensures
        meminfo_map(contents).len() <= lines(contents).len(),
{
    lemma_fold_entries_len(lines(contents), |l: Seq<char>| meminfo_entry(l));
}

/// `/proc/diskstats` gives at most one device per line.
pub proof fn lemma_diskstats_at_most_one_entry_per_line(contents: Seq<char>)
    ensures
        diskstats_map(contents).len() <= lines(contents).len(),
{
    lemma_fold_entries_len(lines(contents), |l: Seq<char>| diskstats_entry(l));
}

/// `/proc/net/dev` gives at most one interface per line after its two header
/// lines, and no interface name starts or ends with white space.
pub proof fn lemma_net_dev_entries(contents: Seq<char>)
    ensures
        net_dev_map(contents).len() <= if lines(contents).len() >= 2 {
            lines(contents).len() - 2
        } else {
            0
        },
        forall|k: Seq<char>| #[trigger] net_dev_map(contents).contains_key(k) ==> k.len() > 0
            ==> !is_ws(k[0]) && !is_ws(k.last()),
{
    let ls = after_header(lines(contents));
    let f = |l: Seq<char>| net_dev_entry(l);
    lemma_fold_entries_len(ls, f);
    let p = |k: Seq<char>, d: NetDevStats| k.len() > 0 ==> !is_ws(k[0]) && !is_ws(k.last());
    assert forall|l: Seq<char>| entry_satisfies(#[trigger] f(l), p) by {
        if let Some((name, rest)) = split_once(l, ':') {
            lemma_trim_clean(name);
        }
    }
    lemma_fold_entries_all(ls, f, p);
}

} // verus!
