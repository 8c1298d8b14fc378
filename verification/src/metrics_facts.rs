//! What each `/proc` parser gives, stated line by line: the value under a
//! name is read from the last line that names it, each field from its own
//! column.

use vstd::prelude::*;
use crate::metrics::{
    cpu_prefix, diskstats_entry, diskstats_map, fold_entries, is_core_line, loop_prefix,
    meminfo_entry, meminfo_map, net_dev_entry, net_dev_map, numbers, ram_prefix, stat_entry,
    stat_map, after_header, lemma_stat_entry_core_line,
};
use crate::text::{
    all_digits, first_index, has_char, has_prefix, is_digit, is_ws, lemma_ws_end, lines,
    parse_u64, split_once, trim, words, ws_end,
};

verus! {

/// Whether the entry `e` has the key `k`.
pub open spec fn entry_has_key<T>(e: Option<(Seq<char>, T)>, k: Seq<char>) -> bool {
    match e {
        Some((k2, _)) => k2 == k,
        None => false,
    }
}

/// The map folded from lines maps a key to the value of the last line that
/// gives an entry with that key.
pub proof fn lemma_fold_entries_last<T>(
    ls: Seq<Seq<char>>,
    f: spec_fn(Seq<char>) -> Option<(Seq<char>, T)>,
    j: int,
    k: Seq<char>,
    v: T,
)
    requires
        0 <= j < ls.len(),
        f(ls[j]) == Some((k, v)),
        forall|i: int| j < i < ls.len() ==> !entry_has_key(#[trigger] f(ls[i]), k),
    ensures
        fold_entries(ls, f).contains_key(k),
        fold_entries(ls, f)[k] == v,
    decreases ls.len(),
{
    if j < ls.len() - 1 {
        let d = ls.drop_last();
        assert forall|i: int| j < i < d.len() implies !entry_has_key(#[trigger] f(d[i]), k) by {
            assert(d[i] == ls[i]);
        }
        assert(d[j] == ls[j]);
        lemma_fold_entries_last(d, f, j, k, v);
        assert(!entry_has_key(f(ls[ls.len() - 1]), k));
    }
}

/// The CPU times of one core line.
pub open spec fn times_of(f: Seq<u64>) -> crate::metrics::CpuTimes {
    crate::metrics::CpuTimes {
        user: f[0],
        nice: f[1],
        system: f[2],
        idle: f[3],
        iowait: f[4],
        irq: f[5],
        softirq: f[6],
        steal: f[7],
    }
}

/// The value that `parse_stat` gives a core is read from the last line of
/// that core: for a line `cpu`, core number `k`, then `s` (nothing, or text
/// that starts with white space) with at least eight numbers among the words
/// of `s`, and no later line of core `k`, core `k` is in the result and its
/// times are those numbers in column order: user the first, nice the second,
/// system the third, idle the fourth, iowait the fifth, irq the sixth,
/// softirq the seventh and steal the eighth; later numbers are ignored.
pub proof fn lemma_stat_value_is_its_line(contents: Seq<char>, j: int, k: Seq<char>, s: Seq<char>)
    requires
        0 <= j < lines(contents).len(),
        lines(contents)[j] == cpu_prefix() + k + s,
        k.len() > 0,
        all_digits(k),
        s.len() == 0 || is_ws(s[0]),
        numbers(words(s)).len() >= 8,
        forall|i: int| j < i < lines(contents).len() ==> !is_core_line(#[trigger] lines(contents)[i], k),
    ensures
        stat_map(contents).contains_key(k),
        ({
            let f = numbers(words(s));
            let t = stat_map(contents)[k];
            &&& t.user == f[0]
            &&& t.nice == f[1]
            &&& t.system == f[2]
            &&& t.idle == f[3]
            &&& t.iowait == f[4]
            &&& t.irq == f[5]
            &&& t.softirq == f[6]
            &&& t.steal == f[7]
        }),
{
    let ls = lines(contents);
    let l = ls[j];
    let rest = l.skip(3);
    assert(rest =~= k + s);
    assert(l.take(3) =~= cpu_prefix());
    lemma_ws_end(rest);
    let e = ws_end(rest);
    if e < k.len() {
        assert(rest[e] == k[e]);
        assert(is_digit(k[e]));
    } else if e > k.len() {
        assert(rest[k.len() as int] == s[0]);
    }
    assert(e == k.len());
    assert(rest.take(e) =~= k);
    assert(rest.skip(e) =~= s);
    let f = numbers(words(s));
    assert(stat_entry(l) == Some((k, times_of(f))));
    let g = |l: Seq<char>| stat_entry(l);
    assert forall|i: int| j < i < ls.len() implies !entry_has_key(#[trigger] g(ls[i]), k) by {
        lemma_stat_entry_core_line(ls[i]);
    }
    lemma_fold_entries_last(ls, g, j, k, times_of(f));
}

/// Whether the first `':'` of `line` ends the name `key`.
pub open spec fn named_by(line: Seq<char>, key: Seq<char>) -> bool {
    match split_once(line, ':') {
        Some((name, _)) => name == key,
        None => false,
    }
}

/// `line` is `key`, `':'`, then `rest`, with no `':'` in `key`: its first
/// `':'` splits it there.
pub proof fn lemma_split_once_at(line: Seq<char>, key: Seq<char>, rest: Seq<char>)
    requires
        line == key + seq![':'] + rest,
        !has_char(key, ':'),
    ensures
        split_once(line, ':') == Some((key, rest)),
{
    assert(line[key.len() as int] == ':');
    assert(has_char(line, ':'));
    let i = first_index(line, ':');
    if i < key.len() {
        assert(line[i] == key[i]);
        assert(has_char(key, ':'));
    } else if i > key.len() {
        assert(line[key.len() as int] != ':');
    }
    assert(line.take(i) =~= key);
    assert(line.skip(i + 1) =~= rest);
}

/// The value that `parse_meminfo` gives a field is read from the last line
/// of that field: for a line `key`, `':'`, then `rest` whose first word is
/// the number `kb`, and no later line of the same name, the field is in the
/// result with `kb * 1024` bytes where that fits in a `u64`, and `u64::MAX`
/// only where it does not.
pub proof fn lemma_meminfo_value_is_kb_times_1024(
    contents: Seq<char>,
    j: int,
    key: Seq<char>,
    rest: Seq<char>,
    kb: u64,
)
    requires
        0 <= j < lines(contents).len(),
        lines(contents)[j] == key + seq![':'] + rest,
        !has_char(key, ':'),
        words(rest).len() > 0,
        parse_u64(words(rest)[0]) == Some(kb),
        forall|i: int| j < i < lines(contents).len() ==> !named_by(#[trigger] lines(contents)[i], key),
    ensures
        meminfo_map(contents).contains_key(key),
        kb * 1024 <= u64::MAX ==> meminfo_map(contents)[key] == kb * 1024,
        kb * 1024 > u64::MAX ==> meminfo_map(contents)[key] == u64::MAX,
{
    let ls = lines(contents);
    lemma_split_once_at(ls[j], key, rest);
    let v = meminfo_entry(ls[j]).unwrap().1;
    assert(meminfo_entry(ls[j]) == Some((key, v)));
    let g = |l: Seq<char>| meminfo_entry(l);
    assert forall|i: int| j < i < ls.len() implies !entry_has_key(#[trigger] g(ls[i]), key) by {
        assert(!named_by(ls[i], key));
    }
    lemma_fold_entries_last(ls, g, j, key, v);
}

/// Whether the line has at least ten words and its third names `dev`.
pub open spec fn device_line_of(line: Seq<char>, dev: Seq<char>) -> bool {
    words(line).len() >= 10 && words(line)[2] == dev
}

/// The value of a word as a number, or 0 where it is not one.
pub open spec fn or_zero(w: Seq<char>) -> u64 {
    match parse_u64(w) {
        Some(n) => n,
        None => 0,
    }
}

/// The value that `parse_diskstats` gives a device is read from the last
/// line of that device: for a line of at least ten words whose third word
/// `dev` does not start with `loop` or `ram`, whatever `dev` ends with, and
/// no later such line of `dev`, the device is in the result with reads
/// completed from the fourth word, bytes read from the sixth times 512,
/// writes completed from the eighth and bytes written from the tenth times
/// 512 (a word that is not a number counting 0, a product that does not fit
/// in a `u64` giving `u64::MAX`).
pub proof fn lemma_diskstats_value_is_its_line(contents: Seq<char>, j: int)
    requires
        0 <= j < lines(contents).len(),
        words(lines(contents)[j]).len() >= 10,
        !has_prefix(words(lines(contents)[j])[2], loop_prefix()),
        !has_prefix(words(lines(contents)[j])[2], ram_prefix()),
        forall|i: int| j < i < lines(contents).len() ==> !device_line_of(#[trigger] lines(contents)[i], words(lines(contents)[j])[2]),
    ensures
        ({
            let w = words(lines(contents)[j]);
            let m = diskstats_map(contents);
            &&& m.contains_key(w[2])
            &&& m[w[2]].reads_completed == or_zero(w[3])
            &&& m[w[2]].writes_completed == or_zero(w[7])
            &&& (or_zero(w[5]) * 512 <= u64::MAX ==> m[w[2]].read_bytes == or_zero(w[5]) * 512)
            &&& (or_zero(w[5]) * 512 > u64::MAX ==> m[w[2]].read_bytes == u64::MAX)
            &&& (or_zero(w[9]) * 512 <= u64::MAX ==> m[w[2]].written_bytes == or_zero(w[9]) * 512)
            &&& (or_zero(w[9]) * 512 > u64::MAX ==> m[w[2]].written_bytes == u64::MAX)
        }),
{
    let ls = lines(contents);
    let w = words(ls[j]);
    let v = diskstats_entry(ls[j]).unwrap().1;
    assert(diskstats_entry(ls[j]) == Some((w[2], v)));
    let g = |l: Seq<char>| diskstats_entry(l);
    assert forall|i: int| j < i < ls.len() implies !entry_has_key(#[trigger] g(ls[i]), w[2]) by {
        assert(!device_line_of(ls[i], w[2]));
    }
    lemma_fold_entries_last(ls, g, j, w[2], v);
}

/// Whether the line's name (before its first `':'`, trimmed) is `name`.
pub open spec fn interface_line_of(line: Seq<char>, name: Seq<char>) -> bool {
    match split_once(line, ':') {
        Some((n, _)) => trim(n) == name,
        None => false,
    }
}

/// The value that `parse_net_dev` gives an interface is read from the last
/// line of that interface after the two header lines: for such a line
/// `name`, `':'`, then `rest` with at least sixteen numbers among its words,
/// whatever their values, and no later line of the same (trimmed) name, the
/// interface is in the result under its trimmed name with the first number
/// as bytes received and the ninth as bytes transmitted.
pub proof fn lemma_net_dev_value_is_its_line(
    contents: Seq<char>,
    j: int,
    name: Seq<char>,
    rest: Seq<char>,
)
    requires
        2 <= j < lines(contents).len(),
        lines(contents)[j] == name + seq![':'] + rest,
        !has_char(name, ':'),
        numbers(words(rest)).len() >= 16,
        forall|i: int| j < i < lines(contents).len() ==> !interface_line_of(#[trigger] lines(contents)[i], trim(name)),
    ensures
        net_dev_map(contents).contains_key(trim(name)),
        net_dev_map(contents)[trim(name)].receive_bytes == numbers(words(rest))[0],
        net_dev_map(contents)[trim(name)].transmit_bytes == numbers(words(rest))[8],
{
    let ls = lines(contents);
    let body = after_header(ls);
    assert(body == ls.skip(2));
    lemma_split_once_at(ls[j], name, rest);
    assert(body[j - 2] == ls[j]);
    let v = net_dev_entry(ls[j]).unwrap().1;
    assert(net_dev_entry(body[j - 2]) == Some((trim(name), v)));
    let g = |l: Seq<char>| net_dev_entry(l);
    assert forall|i: int| j - 2 < i < body.len() implies !entry_has_key(#[trigger] g(body[i]), trim(name)) by {
        assert(body[i] == ls[i + 2]);
        assert(!interface_line_of(ls[i + 2], trim(name)));
    }
    lemma_fold_entries_last(body, g, j - 2, trim(name), v);
}

} // verus!
