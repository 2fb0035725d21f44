//! Killing by port from the command line: which ports the arguments name,
//! which entries listen on each, and what the run's outcome is.
use vstd::prelude::*;

use crate::scanner::{entry_views, EntryView, PortEntry};
use crate::text::{chars_of, parse_u16_range, parse_u16_spec};

verus! {

/// The ports that the arguments name: each argument that parses as a
/// `u16`, in order; the others are passed over.
pub open spec fn arg_ports(args: Seq<Seq<char>>) -> Seq<u16>
    decreases args.len(),
{
    if args.len() == 0 {
        seq![]
    } else {
        let prev = arg_ports(args.drop_last());
        match parse_u16_spec(args.last()) {
            Some(p) => prev.push(p),
            None => prev,
        }
    }
}

/// The texts of a list of strings.
pub open spec fn texts(v: Seq<String>) -> Seq<Seq<char>> {
    v.map_values(|a: String| a@)
}

/// The ports that the command-line arguments name.
pub fn ports_from_args(args: &Vec<String>) -> (r: Vec<u16>)
    ensures
        r@ == arg_ports(texts(args@)),
{
    let ghost t = texts(args@);
    let mut r: Vec<u16> = Vec::new();
    let mut i: usize = 0;
    while i < args.len()
        invariant
            i <= args.len(),
            t == texts(args@),
            r@ == arg_ports(t.take(i as int)),
        decreases args.len() - i,
    {
        let v = chars_of(args[i].as_str());
        assert(t[i as int] == args@[i as int]@);
        assert(v@.subrange(0, v.len() as int) =~= v@);
        assert(t.take(i + 1).drop_last() =~= t.take(i as int));
        match parse_u16_range(&v, 0, v.len()) {
            Some(p) => r.push(p),
            None => {},
        }
        i += 1;
    }
    assert(t.take(args.len() as int) =~= t);
    r
}

/// The indices of the entries of `s` that listen on `port`, in order.
pub open spec fn on_port(s: Seq<EntryView>, port: u16) -> Seq<int>
    decreases s.len(),
{
    if s.len() == 0 {
        seq![]
    } else {
        let prev = on_port(s.drop_last(), port);
        if s.last().port == port {
            prev.push(s.len() - 1)
        } else {
            prev
        }
    }
}

/// The indices of the entries that listen on `port`.
pub fn listeners_on(entries: &Vec<PortEntry>, port: u16) -> (r: Vec<usize>)
    ensures
        r@.map_values(|i: usize| i as int) == on_port(entry_views(entries@), port),
{
    let ghost s = entry_views(entries@);
    let mut r: Vec<usize> = Vec::new();
    let mut i: usize = 0;
    while i < entries.len()
        invariant
            i <= entries.len(),
            s == entry_views(entries@),
            r@.map_values(|k: usize| k as int) == on_port(s.take(i as int), port),
        decreases entries.len() - i,
    {
        assert(s.take(i + 1).drop_last() =~= s.take(i as int));
        assert(s[i as int] == entries@[i as int]@);
        if entries[i].port == port {
            r.push(i);
            assert(r@.map_values(|k: usize| k as int) =~= on_port(s.take(i as int), port).push(i as int));
        }
        i += 1;
    }
    assert(s.take(entries.len() as int) =~= s);
    r
}

/// How a run of kills went: how many succeeded and whether any failed.
pub struct KillTally {
    pub killed: usize,
    pub failed: bool,
}

impl KillTally {
    /// A run with no kill yet.
    pub fn new() -> (r: KillTally)
        ensures
            r.killed == 0 && !r.failed,
    {
        KillTally { killed: 0, failed: false }
    }

    /// Counts one kill: a success adds one, a failure is remembered.
    pub fn record(&mut self, succeeded: bool)
        requires
            old(self).killed < usize::MAX,
        ensures
            final(self).killed == (if succeeded { old(self).killed + 1 } else { old(self).killed as int }),
            final(self).failed == (old(self).failed || !succeeded),
    {
        if succeeded {
            self.killed += 1;
        } else {
            self.failed = true;
        }
    }

    /// Whether the run ends in failure: nothing was killed and something
    /// failed.
    pub fn failed_overall(&self) -> (r: bool)
        ensures
            r == (self.killed == 0 && self.failed),
    {
        self.killed == 0 && self.failed
    }
}


/// The ports to kill, or `None` where the arguments name none (a usage
/// error).
pub fn requested_ports(args: &Vec<String>) -> (r: Option<Vec<u16>>)
    ensures
        match r {
            Some(p) => p@ == arg_ports(texts(args@)) && p@.len() > 0,
            None => arg_ports(texts(args@)).len() == 0,
        },
{
    let ports = ports_from_args(args);
    if ports.len() == 0 {
        None
    } else {
        Some(ports)
    }
}

/// The kills to try, port by port in the order given: for each port the
/// indices of the entries that listen on it (none where nothing listens).
pub fn kill_plan(ports: &Vec<u16>, entries: &Vec<PortEntry>) -> (r: Vec<Vec<usize>>)
    ensures
        r.len() == ports.len(),
        forall|k: int|
            0 <= k < r.len() ==> (#[trigger] r@[k])@.map_values(|i: usize| i as int) == on_port(
                entry_views(entries@),
                ports@[k],
            ),
{
    let mut r: Vec<Vec<usize>> = Vec::new();
    let mut k: usize = 0;
    while k < ports.len()
        invariant
            k <= ports.len(),
            r.len() == k,
            forall|j: int|
                0 <= j < k ==> (#[trigger] r@[j])@.map_values(|i: usize| i as int) == on_port(
                    entry_views(entries@),
                    ports@[j],
                ),
        decreases ports.len() - k,
    {
        let l = listeners_on(entries, ports[k]);
        r.push(l);
        k += 1;
    }
    r
}

} // verus!
