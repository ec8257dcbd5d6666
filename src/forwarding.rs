//! The pool of tunnels: which tunnel serves a request, when a new one is
//! opened, and which ones a maintenance pass evicts.
//!
//! Time is given in whole seconds. The child processes, their output and the
//! health probes belong to the caller: a tunnel here carries the `handle` by
//! which the caller finds its process, and a maintenance pass is handed the
//! outcome of each tunnel's probe.
use vstd::prelude::*;

use crate::descriptor::{
    lemma_best_ingress_longest, lemma_resolve_longest, resolve, resolve_of, table, views,
    ApplicationDescriptor,
};
use crate::hostnames::{all_ingresses, collect_hostnames, hosts_of, sorted_strings};
use crate::text::{captures, digits_value, is_port_text, opt_view, parse_port, regex_groups};

verus! {

/// How long, in seconds, a tunnel lives after its last use.
pub const TTL_SECONDS: u64 = 60;

/// How long, in seconds, until the descriptors are due for a refresh.
pub const UPDATE_SECONDS: u64 = 120;

/// The latest time the pool accepts, so that deadlines fit in a `u64`.
pub const MAX_TIME: u64 = 18446744073709551000;

/// The kinds of failure of the engine.
#[derive(Clone, Copy, Debug, PartialEq, Eq)]
pub enum ForwardErrorKind {
    /// The cluster tool failed or its answer could not be read.
    DiscoveryFailed,
    /// A tunnel could not be started.
    TunnelOpenFailed,
}

/// A failure, with a message for the user and the underlying cause.
#[derive(Debug)]
pub struct ForwardError {
    pub kind: ForwardErrorKind,
    pub message: String,
    pub cause: String,
}

impl ForwardError {
    /// The message shown for this error.
    pub fn describe(&self) -> (r: String)
        ensures
            r@ == self.message@,
    {
        self.message.clone()
    }
}

/// The local end of a tunnel.
#[derive(Clone, Debug, PartialEq, Eq)]
pub struct Portforward {
    pub host: String,
    pub port: usize,
}

/// An open tunnel.
pub struct PortforwardDescriptor {
    /// The ingresses of the application it leads to.
    pub hosts: Vec<String>,
    /// The time after which it is evicted unless used again.
    pub ttl: u64,
    /// The health-check path of the application, if any.
    pub liveness: Option<String>,
    /// Its local end.
    pub portforward: Portforward,
    /// The caller's handle for its process.
    pub handle: u64,
}

/// The regular expression that the tunnel's first output line matches.
pub open spec fn forward_pattern() -> Seq<char> {
    "Forwarding from (.+):(\\d{2,5}) -> \\d{2,5}"@
}

/// The local host and port that the tunnel's first output line announces.
pub open spec fn forwarding_line(line: Seq<char>) -> Option<(Seq<char>, nat)> {
    match regex_groups(forward_pattern(), line) {
        Some(g) => if g.len() >= 3 && g[1] is Some && g[2] is Some && is_port_text(g[2]->0) {
            Some((g[1]->0, digits_value(g[2]->0)))
        } else {
            None
        },
        None => None,
    }
}

/// The path without one leading `/`.
pub open spec fn strip_slash(s: Seq<char>) -> Seq<char> {
    if s.len() > 0 && s[0] == '/' {
        s.subrange(1, s.len() as int)
    } else {
        s
    }
}

/// The tunnel with its deadline moved to `now` plus the lifetime.
pub open spec fn refreshed(t: PortforwardDescriptor, now: u64) -> PortforwardDescriptor {
    PortforwardDescriptor {
        hosts: t.hosts,
        ttl: (now + TTL_SECONDS) as u64,
        liveness: t.liveness,
        portforward: t.portforward,
        handle: t.handle,
    }
}

/// `t` is the tunnel opened at `now` for descriptor `d`, with local end `pf`.
pub open spec fn opened_for(t: PortforwardDescriptor, d: ApplicationDescriptor, now: u64, pf: Portforward, handle: u64) -> bool {
    &&& t.hosts@ == d.ingresses@
    &&& t.ttl == now + TTL_SECONDS
    &&& t.liveness == d.liveness
    &&& t.portforward == pf
    &&& t.handle == handle
}

/// The first tunnel, from index `from` on, that leads to `ingress`.
pub open spec fn first_holding(ts: Seq<PortforwardDescriptor>, ingress: Seq<char>, from: int) -> Option<int>
    decreases ts.len() - from,
{
    if from < 0 || from >= ts.len() {
        None
    } else if ts[from].holds(ingress) {
        Some(from)
    } else {
        first_holding(ts, ingress, from + 1)
    }
}

/// The tunnel that serves `host` and `path`, if one is open.
pub open spec fn tunnel_for(
    ds: Seq<ApplicationDescriptor>,
    ts: Seq<PortforwardDescriptor>,
    host: Seq<char>,
    path: Seq<char>,
) -> Option<int> {
    match resolve_of(table(ds), host, path) {
        Some((ingress, _)) => first_holding(ts, ingress, 0),
        None => None,
    }
}

/// A maintenance pass keeps a tunnel whose probe succeeded and whose deadline
/// is still ahead.
pub open spec fn keeps(t: PortforwardDescriptor, probe_ok: bool, now: u64) -> bool {
    probe_ok && now < t.ttl
}

/// The first `n` tunnels that a pass keeps, in order.
pub open spec fn kept_upto(ts: Seq<PortforwardDescriptor>, ok: Seq<bool>, now: u64, n: int) -> Seq<PortforwardDescriptor>
    decreases n,
{
    if n <= 0 {
        Seq::empty()
    } else if keeps(ts[n - 1], ok[n - 1], now) {
        kept_upto(ts, ok, now, n - 1).push(ts[n - 1])
    } else {
        kept_upto(ts, ok, now, n - 1)
    }
}

/// The first `n` tunnels that a pass evicts, in order.
pub open spec fn evicted_upto(ts: Seq<PortforwardDescriptor>, ok: Seq<bool>, now: u64, n: int) -> Seq<PortforwardDescriptor>
    decreases n,
{
    if n <= 0 {
        Seq::empty()
    } else if keeps(ts[n - 1], ok[n - 1], now) {
        evicted_upto(ts, ok, now, n - 1)
    } else {
        evicted_upto(ts, ok, now, n - 1).push(ts[n - 1])
    }
}

/// The indices, below `n`, of the tunnels that a pass keeps, in order.
pub open spec fn kept_indices(ts: Seq<PortforwardDescriptor>, ok: Seq<bool>, now: u64, n: int) -> Seq<int>
    decreases n,
{
    if n <= 0 {
        Seq::empty()
    } else if keeps(ts[n - 1], ok[n - 1], now) {
        kept_indices(ts, ok, now, n - 1).push(n - 1)
    } else {
        kept_indices(ts, ok, now, n - 1)
    }
}

/// The indices, below `n`, of the tunnels that a pass evicts, in order.
pub open spec fn evicted_indices(ts: Seq<PortforwardDescriptor>, ok: Seq<bool>, now: u64, n: int) -> Seq<int>
    decreases n,
{
    if n <= 0 {
        Seq::empty()
    } else if keeps(ts[n - 1], ok[n - 1], now) {
        evicted_indices(ts, ok, now, n - 1)
    } else {
        evicted_indices(ts, ok, now, n - 1).push(n - 1)
    }
}

/// Copies a list of strings.
fn copy_strings(v: &Vec<String>) -> (r: Vec<String>)
    ensures
        r@ == v@,
{
    let mut r: Vec<String> = Vec::new();
    let mut i: usize = 0;
    while i < v.len()
        invariant
            i <= v@.len(),
            r@ == v@.take(i as int),
        decreases v@.len() - i,
    {
        r.push(v[i].clone());
        assert(v@.take(i + 1) =~= v@.take(i as int).push(v@[i as int]));
        i = i + 1;
    }
    assert(v@.take(v@.len() as int) =~= v@);
    r
}

/// Copies an optional string.
fn copy_opt(o: &Option<String>) -> (r: Option<String>)
    ensures
        r == *o,
{
    match o {
        Some(s) => Some(s.clone()),
        None => None,
    }
}

impl Portforward {
    /// A copy of this port-forward.
    pub fn duplicate(&self) -> (r: Portforward)
        ensures
            r == *self,
    {
        Portforward { host: self.host.clone(), port: self.port }
    }
}

/// Reads the local host and port from the first line a tunnel prints,
/// `Forwarding from <host>:<port> -> <port>`.
pub fn parse_forwarding_line(line: &str) -> (r: Option<Portforward>)
    ensures
        match forwarding_line(line@) {
            Some((host, port)) => r is Some && (r->0).host@ == host && (r->0).port as nat == port,
            None => r is None,
        },
{
    let groups = captures("Forwarding from (.+):(\\d{2,5}) -> \\d{2,5}", line);
    match groups {
        Some(groups) => {
            if groups.len() < 3 {
                return None;
            }
            let mut groups = groups;
            let ghost g = groups@;
            let port_text = groups.remove(2);
            let host = groups.remove(1);
            assert(opt_view(host) == g.map_values(|o: Option<String>| opt_view(o))[1]);
            assert(opt_view(port_text) == g.map_values(|o: Option<String>| opt_view(o))[2]);
            match (host, port_text) {
                (Some(host), Some(port_text)) => match parse_port(port_text.as_str()) {
                    Some(port) => Some(Portforward { host, port }),
                    None => None,
                },
                _ => None,
            }
        },
        None => None,
    }
}

impl PortforwardDescriptor {
    /// The tunnel leads to the application that declares `ingress`.
    pub open spec fn holds(&self, ingress: Seq<char>) -> bool {
        views(self.hosts@).contains(ingress)
    }

    /// Whether the tunnel leads to the application that declares `ingress`.
    pub fn contains_ingress(&self, ingress: &String) -> (r: bool)
        ensures
            r == self.holds(ingress@),
    {
        let mut i: usize = 0;
        while i < self.hosts.len()
            invariant
                i <= self.hosts@.len(),
                forall|k: int| 0 <= k < i ==> views(self.hosts@)[k] != ingress@,
            decreases self.hosts@.len() - i,
        {
            if self.hosts[i] == *ingress {
                assert(views(self.hosts@)[i as int] == ingress@);
                return true;
            }
            i = i + 1;
        }
        false
    }

    /// Whether a maintenance pass at `now` keeps the tunnel, given the
    /// outcome of its health probe.
    pub fn tick(&self, probe_ok: bool, now: u64) -> (r: bool)
        ensures
            r == keeps(*self, probe_ok, now),
    {
        probe_ok && now < self.ttl
    }

    /// The path that the health probe requests, without its leading `/`;
    /// `None` when the application declares no health check, in which case
    /// the probe fails.
    pub fn selftest_path(&self) -> (r: Option<String>)
        ensures
            opt_view(r) == match self.liveness {
                Some(l) => Some(strip_slash(l@)),
                None => None,
            },
    {
        match &self.liveness {
            Some(l) => {
                let s = l.as_str();
                let n = s.unicode_len();
                if n > 0 && s.get_char(0) == '/' {
                    Some(s.substring_char(1, n).to_owned())
                } else {
                    Some(s.to_owned())
                }
            },
            None => None,
        }
    }
}

/// What a request needs from the pool.
#[derive(Debug)]
pub enum FetchStep {
    /// No application serves the host and path.
    NoRoute,
    /// An open tunnel serves them, at this local end.
    Found(Portforward),
    /// The descriptor at this index serves them, and no tunnel to it is open:
    /// the caller starts one and hands its first line to `open_tunnel`.
    Open(usize),
}

/// The descriptors of the cluster's applications and the open tunnels.
pub struct State {
    next_update: u64,
    hosts: Vec<ApplicationDescriptor>,
    port_forwards: Vec<PortforwardDescriptor>,
}

impl State {
    /// The descriptors, fixed when the pool is made.
    pub closed spec fn descriptors(&self) -> Seq<ApplicationDescriptor> {
        self.hosts@
    }

    /// The open tunnels, oldest first.
    pub closed spec fn tunnels(&self) -> Seq<PortforwardDescriptor> {
        self.port_forwards@
    }

    /// The time the descriptors are due for a refresh.
    pub closed spec fn next_update_at(&self) -> u64 {
        self.next_update
    }

    /// A pool over the given descriptors, with no tunnel open.
    pub fn new(descriptors: Vec<ApplicationDescriptor>, now: u64) -> (r: State)
        requires
            now <= MAX_TIME,
        ensures
            r.descriptors() == descriptors@,
            r.tunnels().len() == 0,
            r.next_update_at() == now + UPDATE_SECONDS,
    {
        State { next_update: now + UPDATE_SECONDS, hosts: descriptors, port_forwards: Vec::new() }
    }

    /// The descriptors.
    pub fn descriptor_list(&self) -> (r: &Vec<ApplicationDescriptor>)
        ensures
            r@ == self.descriptors(),
    {
        &self.hosts
    }

    /// The number of open tunnels.
    pub fn tunnel_count(&self) -> (r: usize)
        ensures
            r == self.tunnels().len(),
    {
        self.port_forwards.len()
    }

    /// The open tunnels, oldest first.
    pub fn tunnel_list(&self) -> (r: &Vec<PortforwardDescriptor>)
        ensures
            r@ == self.tunnels(),
    {
        &self.port_forwards
    }

    /// The hosts that the descriptors' ingresses declare, sorted in `str`
    /// order and each once.
    pub fn hostnames(&self) -> (r: Vec<String>)
        ensures
            forall|h: Seq<char>|
                views(r@).contains(h) <==> hosts_of(all_ingresses(table(self.descriptors()))).contains(h),
            sorted_strings(r@),
            forall|i: int, j: int| 0 <= i < j < r@.len() ==> (#[trigger] r@[i])@ != (#[trigger] r@[j])@,
    {
        collect_hostnames(&self.hosts)
    }

    /// Finds what serves `host` and `path`: none, an open tunnel, whose
    /// deadline is then renewed, or a descriptor to open a tunnel for.
    pub fn fetch_address(&mut self, host: &str, path: &str, now: u64) -> (r: FetchStep)
        requires
            now <= MAX_TIME,
        ensures
            final(self).descriptors() == old(self).descriptors(),
            final(self).next_update_at() == old(self).next_update_at(),
            match resolve_of(table(old(self).descriptors()), host@, path@) {
                None => r is NoRoute && final(self).tunnels() == old(self).tunnels(),
                Some((ingress, d)) => match first_holding(old(self).tunnels(), ingress, 0) {
                    Some(t) => r == FetchStep::Found(old(self).tunnels()[t].portforward)
                        && final(self).tunnels() == old(self).tunnels().update(
                        t,
                        refreshed(old(self).tunnels()[t], now),
                    ),
                    None => r == FetchStep::Open(d as usize) && final(self).tunnels() == old(self).tunnels(),
                },
            },
    {
        let found = resolve(&self.hosts, host, path);
        if found.is_none() {
            return FetchStep::NoRoute;
        }
        let (ingress, d) = found.unwrap();
        let ghost ts = self.port_forwards@;
        let mut i: usize = 0;
        while i < self.port_forwards.len()
            invariant
                i <= ts.len(),
                ts == self.port_forwards@,
                ts == old(self).port_forwards@,
                resolve_of(table(old(self).descriptors()), host@, path@) == Some((ingress@, d as int)),
                now <= MAX_TIME,
                self.hosts == old(self).hosts,
                self.next_update == old(self).next_update,
                first_holding(ts, ingress@, 0) == first_holding(ts, ingress@, i as int),
            decreases ts.len() - i,
        {
            if self.port_forwards[i].contains_ingress(&ingress) {
                assert(first_holding(ts, ingress@, i as int) == Some(i as int));
                let mut t = self.port_forwards.remove(i);
                t.ttl = now + TTL_SECONDS;
                let pf = t.portforward.duplicate();
                self.port_forwards.insert(i, t);
                assert(self.port_forwards@ =~= ts.update(i as int, refreshed(ts[i as int], now)));
                assert(pf == ts[i as int].portforward);
                return FetchStep::Found(pf);
            }
            i = i + 1;
        }
        FetchStep::Open(d)
    }

    /// Registers the tunnel started for descriptor `descriptor`, whose first
    /// output line is `first_line`: when the line announces a local end, the
    /// tunnel joins the pool with a fresh deadline and its local end is
    /// returned; otherwise the start failed and the pool is unchanged.
    pub fn open_tunnel(&mut self, descriptor: usize, first_line: &str, now: u64, handle: u64) -> (r: Result<Portforward, ForwardError>)
        requires
            descriptor < old(self).descriptors().len(),
            now <= MAX_TIME,
        ensures
            final(self).descriptors() == old(self).descriptors(),
            final(self).next_update_at() == old(self).next_update_at(),
            match forwarding_line(first_line@) {
                Some((h, port)) => r is Ok && (r->Ok_0).host@ == h && (r->Ok_0).port as nat == port
                    && final(self).tunnels().len() == old(self).tunnels().len() + 1
                    && final(self).tunnels().take(old(self).tunnels().len() as int) == old(self).tunnels()
                    && opened_for(
                    final(self).tunnels().last(),
                    old(self).descriptors()[descriptor as int],
                    now,
                    r->Ok_0,
                    handle,
                ),
                None => r is Err && (r->Err_0).kind == ForwardErrorKind::TunnelOpenFailed
                    && final(self).tunnels() == old(self).tunnels(),
            },
    {
        match parse_forwarding_line(first_line) {
            Some(pf) => {
                let app = &self.hosts[descriptor];
                let tunnel = PortforwardDescriptor {
                    hosts: copy_strings(&app.ingresses),
                    ttl: now + TTL_SECONDS,
                    liveness: copy_opt(&app.liveness),
                    portforward: pf.duplicate(),
                    handle,
                };
                self.port_forwards.push(tunnel);
                assert(self.port_forwards@.take(old(self).port_forwards@.len() as int) =~= old(self).port_forwards@);
                Ok(pf)
            },
            None => Err(
                ForwardError {
                    kind: ForwardErrorKind::TunnelOpenFailed,
                    message: "Could not open port-forward. Are you still connected to the cluster?".to_owned(),
                    cause: first_line.to_owned(),
                },
            ),
        }
    }

    /// A maintenance pass at `now`, with the outcome of each tunnel's health
    /// probe: keeps the tunnels whose probe succeeded and whose deadline is
    /// ahead, and returns the others, in order, for the caller to close. The
    /// refresh time moves on when it has passed.
    pub fn tick(&mut self, now: u64, probes: &Vec<bool>) -> (evicted: Vec<PortforwardDescriptor>)
        requires
            probes@.len() == old(self).tunnels().len(),
            now <= MAX_TIME,
        ensures
            final(self).descriptors() == old(self).descriptors(),
            final(self).tunnels() == kept_upto(old(self).tunnels(), probes@, now, probes@.len() as int),
            evicted@ == evicted_upto(old(self).tunnels(), probes@, now, probes@.len() as int),
            final(self).next_update_at() == if old(self).next_update_at() < now {
                (now + UPDATE_SECONDS) as u64
            } else {
                old(self).next_update_at()
            },
    {
        if self.next_update < now {
            self.next_update = now + UPDATE_SECONDS;
        }
        let ghost ts = self.port_forwards@;
        let n = self.port_forwards.len();
        let mut kept: Vec<PortforwardDescriptor> = Vec::new();
        let mut evicted: Vec<PortforwardDescriptor> = Vec::new();
        let mut i: usize = 0;
        while self.port_forwards.len() > 0
            invariant
                i <= ts.len(),
                n == ts.len(),
                probes@.len() == ts.len(),
                self.hosts == old(self).hosts,
                self.next_update == if old(self).next_update < now {
                    (now + UPDATE_SECONDS) as u64
                } else {
                    old(self).next_update
                },
                self.port_forwards@ == ts.subrange(i as int, ts.len() as int),
                kept@ == kept_upto(ts, probes@, now, i as int),
                evicted@ == evicted_upto(ts, probes@, now, i as int),
            decreases self.port_forwards@.len(),
        {
            let t = self.port_forwards.remove(0);
            assert(t == ts[i as int]);
            if t.tick(probes[i], now) {
                kept.push(t);
            } else {
                evicted.push(t);
            }
            i = i + 1;
            assert(self.port_forwards@ =~= ts.subrange(i as int, ts.len() as int));
        }
        self.port_forwards = kept;
        evicted
    }
}

/// What `first_holding` returns: the first tunnel from `from` on that leads
/// to the ingress, or none when no tunnel from there on does.
pub proof fn lemma_first_holding_spec(ts: Seq<PortforwardDescriptor>, ingress: Seq<char>, from: int)
    requires
        0 <= from,
    ensures
        match first_holding(ts, ingress, from) {
            Some(i) => from <= i < ts.len() && ts[i].holds(ingress) && forall|j: int|
                from <= j < i ==> !(#[trigger] ts[j]).holds(ingress),
            None => forall|j: int| from <= j < ts.len() ==> !(#[trigger] ts[j]).holds(ingress),
        },
    decreases ts.len() - from,
{
    if from < ts.len() && !ts[from].holds(ingress) {
        lemma_first_holding_spec(ts, ingress, from + 1);
    }
}

/// Tunnels that lead to the same ingresses are found alike.
proof fn lemma_first_holding_same_hosts(a: Seq<PortforwardDescriptor>, b: Seq<PortforwardDescriptor>, ingress: Seq<char>, from: int)
    requires
        0 <= from,
        a.len() == b.len(),
        forall|i: int| 0 <= i < a.len() ==> (#[trigger] a[i]).hosts@ == b[i].hosts@,
    ensures
        first_holding(a, ingress, from) == first_holding(b, ingress, from),
    decreases a.len() - from,
{
    if from < a.len() {
        assert(a[from].hosts@ == b[from].hosts@);
        lemma_first_holding_same_hosts(a, b, ingress, from + 1);
    }
}

/// Once a request has been served by a tunnel, whether found open with its
/// deadline renewed or newly opened for the descriptor that serves it, the
/// same host and path are served by that same tunnel, and so by the same
/// local end, without opening another.
pub proof fn lemma_fetch_reuses(
    ds: Seq<ApplicationDescriptor>,
    ts: Seq<PortforwardDescriptor>,
    host: Seq<char>,
    path: Seq<char>,
    now: u64,
    opened: PortforwardDescriptor,
)
    ensures
        tunnel_for(ds, ts, host, path) matches Some(t) ==> tunnel_for(
            ds,
            ts.update(t, refreshed(ts[t], now)),
            host,
            path,
        ) == Some(t) && ts.update(t, refreshed(ts[t], now))[t].portforward == ts[t].portforward,
        resolve_of(table(ds), host, path) matches Some((ingress, d)) ==> (first_holding(ts, ingress, 0) is None
            && opened.hosts@ == ds[d].ingresses@ ==> tunnel_for(ds, ts.push(opened), host, path) == Some(
            ts.len() as int,
        )),
{
    if let Some((ingress, d)) = resolve_of(table(ds), host, path) {
        if let Some(t) = first_holding(ts, ingress, 0) {
            lemma_first_holding_spec(ts, ingress, 0);
            let ts2 = ts.update(t, refreshed(ts[t], now));
            assert forall|i: int| 0 <= i < ts.len() implies (#[trigger] ts[i]).hosts@ == ts2[i].hosts@ by {}
            lemma_first_holding_same_hosts(ts, ts2, ingress, 0);
        }
        if first_holding(ts, ingress, 0) is None && opened.hosts@ == ds[d].ingresses@ {
            lemma_resolve_longest(table(ds), host, path);
            lemma_best_ingress_longest(table(ds)[d], host, path);
            assert(table(ds)[d] == ds[d].ingress_views());
            assert(opened.holds(ingress));
            lemma_first_holding_spec(ts, ingress, 0);
            let ts2 = ts.push(opened);
            assert forall|j: int| 0 <= j < ts.len() implies !(#[trigger] ts2[j]).holds(ingress) by {
                assert(ts2[j] == ts[j]);
            }
            assert(ts2[ts.len() as int] == opened);
            lemma_first_holding_spec(ts2, ingress, 0);
        }
    }
}

/// A maintenance pass splits the tunnels in two, as many in all as there
/// were: it keeps those at the indices whose probe succeeded with the
/// deadline ahead, and evicts, to be closed once each, those at all other
/// indices, each index once and in order. So a tunnel whose probe failed, or
/// whose deadline has passed, is evicted and not kept.
pub proof fn lemma_tick_by_index(ts: Seq<PortforwardDescriptor>, ok: Seq<bool>, now: u64, n: int)
    requires
        0 <= n <= ts.len(),
        n <= ok.len(),
    ensures
        kept_upto(ts, ok, now, n).len() + evicted_upto(ts, ok, now, n).len() == n,
        kept_upto(ts, ok, now, n).len() == kept_indices(ts, ok, now, n).len(),
        evicted_upto(ts, ok, now, n).len() == evicted_indices(ts, ok, now, n).len(),
        forall|k: int|
            0 <= k < kept_indices(ts, ok, now, n).len() ==> {
                let i = #[trigger] kept_indices(ts, ok, now, n)[k];
                0 <= i < n && keeps(ts[i], ok[i], now) && kept_upto(ts, ok, now, n)[k] == ts[i]
            },
        forall|k: int|
            0 <= k < evicted_indices(ts, ok, now, n).len() ==> {
                let i = #[trigger] evicted_indices(ts, ok, now, n)[k];
                0 <= i < n && !keeps(ts[i], ok[i], now) && evicted_upto(ts, ok, now, n)[k] == ts[i]
            },
        forall|i: int|
            0 <= i < n ==> (#[trigger] kept_indices(ts, ok, now, n).contains(i) <==> keeps(ts[i], ok[i], now)),
        forall|i: int|
            0 <= i < n ==> (#[trigger] evicted_indices(ts, ok, now, n).contains(i) <==> !keeps(ts[i], ok[i], now)),
    decreases n,
{
    if n > 0 {
        lemma_tick_by_index(ts, ok, now, n - 1);
        let ki = kept_indices(ts, ok, now, n - 1);
        let ei = evicted_indices(ts, ok, now, n - 1);
        let kn = kept_indices(ts, ok, now, n);
        let en = evicted_indices(ts, ok, now, n);
        if keeps(ts[n - 1], ok[n - 1], now) {
            assert(kn == ki.push(n - 1));
            assert(en == ei);
            assert(kept_upto(ts, ok, now, n) == kept_upto(ts, ok, now, n - 1).push(ts[n - 1]));
            assert forall|k: int| 0 <= k < kn.len() implies {
                let i = #[trigger] kn[k];
                0 <= i < n && keeps(ts[i], ok[i], now) && kept_upto(ts, ok, now, n)[k] == ts[i]
            } by {
                if k < ki.len() {
                    assert(kn[k] == ki[k]);
                }
            }
            assert forall|i: int| 0 <= i < n implies (#[trigger] kn.contains(i) <==> keeps(ts[i], ok[i], now)) by {
                if i < n - 1 {
                    if ki.contains(i) {
                        let k = choose|k: int| 0 <= k < ki.len() && ki[k] == i;
                        assert(kn[k] == i);
                    }
                    if kn.contains(i) {
                        let k = choose|k: int| 0 <= k < kn.len() && kn[k] == i;
                        if k < ki.len() {
                            assert(ki[k] == i);
                        }
                    }
                } else {
                    assert(kn[ki.len() as int] == n - 1);
                }
            }
            assert forall|i: int| 0 <= i < n implies (#[trigger] en.contains(i) <==> !keeps(ts[i], ok[i], now)) by {
                if i == n - 1 && en.contains(i) {
                    let k = choose|k: int| 0 <= k < en.len() && en[k] == i;
                    assert(ei[k] < n - 1);
                }
            }
        } else {
            assert(en == ei.push(n - 1));
            assert(kn == ki);
            assert(evicted_upto(ts, ok, now, n) == evicted_upto(ts, ok, now, n - 1).push(ts[n - 1]));
            assert forall|k: int| 0 <= k < en.len() implies {
                let i = #[trigger] en[k];
                0 <= i < n && !keeps(ts[i], ok[i], now) && evicted_upto(ts, ok, now, n)[k] == ts[i]
            } by {
                if k < ei.len() {
                    assert(en[k] == ei[k]);
                }
            }
            assert forall|i: int| 0 <= i < n implies (#[trigger] en.contains(i) <==> !keeps(ts[i], ok[i], now)) by {
                if i < n - 1 {
                    if ei.contains(i) {
                        let k = choose|k: int| 0 <= k < ei.len() && ei[k] == i;
                        assert(en[k] == i);
                    }
                    if en.contains(i) {
                        let k = choose|k: int| 0 <= k < en.len() && en[k] == i;
                        if k < ei.len() {
                            assert(ei[k] == i);
                        }
                    }
                } else {
                    assert(en[ei.len() as int] == n - 1);
                }
            }
            assert forall|i: int| 0 <= i < n implies (#[trigger] kn.contains(i) <==> keeps(ts[i], ok[i], now)) by {
                if i == n - 1 && kn.contains(i) {
                    let k = choose|k: int| 0 <= k < kn.len() && kn[k] == i;
                    assert(ki[k] < n - 1);
                }
            }
        }
    }
}

} // verus!
