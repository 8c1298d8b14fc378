//! From the contents of the `/proc` files to the exposition text. Reading
//! the files is the caller's part.

use vstd::prelude::*;
use crate::metric_map::ascending_entries;
use crate::metrics::{
    diskstats_map, meminfo_map, net_dev_map, parse_diskstats, parse_meminfo, parse_net_dev,
    parse_stat, stat_map,
};
use crate::render::{opt_view, render, render_text, LoadAvgText};

verus! {

/// The exposition text of the contents of `/proc/stat`, `/proc/meminfo`,
/// `/proc/diskstats` and `/proc/net/dev`, with the load averages and the
/// uptime where they could be read.
pub fn render_contents(
    stat: &str,
    meminfo: &str,
    load: Option<LoadAvgText>,
    uptime: Option<String>,
    diskstats: &str,
    net_dev: &str,
) -> (out: String)
    ensures
        out@ == render_text(
            ascending_entries(stat_map(stat@)),
            meminfo_map(meminfo@),
            opt_view(load),
            opt_view(uptime),
            ascending_entries(diskstats_map(diskstats@)),
            ascending_entries(net_dev_map(net_dev@)),
        ),
{
    let cpu = parse_stat(stat);
    let mem = parse_meminfo(meminfo);
    let disk = parse_diskstats(diskstats);
    let net = parse_net_dev(net_dev);
    render(&cpu, &mem, load, uptime, &disk, &net)
}

} // verus!
