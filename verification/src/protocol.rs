//! Protocols: the transports that expose a device, and the multiplexer that bridges them.

use crate::error::Error;
use vstd::prelude::*;

verus! {

/// One transport that exposes a device, with the endpoints it is set up for.
#[derive(Debug, PartialEq)]
pub enum Protocol {
    /// OSC over UDP.
    Osc { ip: String, remote_port: u16, local_port: u16 },
    /// OSC preceded by the Minuit handshake.
    Minuit { local_name: String, ip: String, remote_port: u16, local_port: u16 },
    /// The serving side of OSCQuery.
    OscQueryServer { osc_port: u16, ws_port: u16 },
    /// The client side of OSCQuery, mirroring a remote namespace.
    OscQueryMirror { host: String },
    /// Several protocols bridged by directed exposure edges between its members.
    Multiplex { members: Vec<Protocol>, edges: Vec<(usize, usize)> },
}

/// What a [`Protocol`] denotes.
pub enum ProtocolModel {
    Osc { ip: Seq<char>, remote_port: u16, local_port: u16 },
    Minuit { local_name: Seq<char>, ip: Seq<char>, remote_port: u16, local_port: u16 },
    OscQueryServer { osc_port: u16, ws_port: u16 },
    OscQueryMirror { host: Seq<char> },
    Multiplex { members: Seq<ProtocolModel>, edges: Seq<(usize, usize)> },
}

impl Protocol {
    /// What this protocol denotes.
    pub open spec fn model(&self) -> ProtocolModel
        decreases self,
    {
        match self {
            Protocol::Osc { ip, remote_port, local_port } => ProtocolModel::Osc {
                ip: ip@,
                remote_port: *remote_port,
                local_port: *local_port,
            },
            Protocol::Minuit { local_name, ip, remote_port, local_port } => ProtocolModel::Minuit {
                local_name: local_name@,
                ip: ip@,
                remote_port: *remote_port,
                local_port: *local_port,
            },
            Protocol::OscQueryServer { osc_port, ws_port } => ProtocolModel::OscQueryServer {
                osc_port: *osc_port,
                ws_port: *ws_port,
            },
            Protocol::OscQueryMirror { host } => ProtocolModel::OscQueryMirror { host: host@ },
            Protocol::Multiplex { members, edges } => ProtocolModel::Multiplex {
                members: Seq::new(
                    members.len() as nat,
                    |i: int|
                        if 0 <= i < members.len() {
                            members[i].model()
                        } else {
                            ProtocolModel::OscQueryServer { osc_port: 0, ws_port: 0 }
                        },
                ),
                edges: edges@,
            },
        }
    }
}

impl View for Protocol {
    type V = ProtocolModel;

    open spec fn view(&self) -> ProtocolModel {
        self.model()
    }
}

/// What a sequence of protocols denotes, one by one.
pub open spec fn protocol_models(v: Seq<Protocol>) -> Seq<ProtocolModel> {
    Seq::new(v.len(), |i: int| v[i]@)
}

/// A port number is one that fits sixteen bits.
pub open spec fn is_port(p: int) -> bool {
    0 <= p <= 0xffff
}

impl Protocol {
    /// An OSC protocol that sends to `ip:remote_port` and listens on `local_port`.
    /// `TransportError` exactly when one of the ports is no port number.
    pub fn osc(ip: &str, remote_port: i32, local_port: i32) -> (r: Result<Protocol, Error>)
        ensures
            match r {
                Ok(p) => is_port(remote_port as int) && is_port(local_port as int) && p@ == (
                ProtocolModel::Osc {
                    ip: ip@,
                    remote_port: remote_port as u16,
                    local_port: local_port as u16,
                }),
                Err(e) => e == Error::TransportError && !(is_port(remote_port as int) && is_port(
                    local_port as int,
                )),
            },
    {
        if remote_port < 0 || remote_port > 0xffff || local_port < 0 || local_port > 0xffff {
            return Err(Error::TransportError);
        }
        Ok(Protocol::Osc { ip: ip.to_owned(), remote_port: remote_port as u16, local_port: local_port as u16 })
    }

    /// A Minuit protocol announcing itself as `local_name`.
    /// `TransportError` exactly when one of the ports is no port number.
    pub fn minuit(local_name: &str, ip: &str, remote_port: i32, local_port: i32) -> (r: Result<
        Protocol,
        Error,
    >)
        ensures
            match r {
                Ok(p) => is_port(remote_port as int) && is_port(local_port as int) && p@ == (
                ProtocolModel::Minuit {
                    local_name: local_name@,
                    ip: ip@,
                    remote_port: remote_port as u16,
                    local_port: local_port as u16,
                }),
                Err(e) => e == Error::TransportError && !(is_port(remote_port as int) && is_port(
                    local_port as int,
                )),
            },
    {
        if remote_port < 0 || remote_port > 0xffff || local_port < 0 || local_port > 0xffff {
            return Err(Error::TransportError);
        }
        Ok(
            Protocol::Minuit {
                local_name: local_name.to_owned(),
                ip: ip.to_owned(),
                remote_port: remote_port as u16,
                local_port: local_port as u16,
            },
        )
    }

    /// An OSCQuery server with its OSC and WebSocket ports.
    /// `TransportError` exactly when one of the ports is no port number.
    pub fn oscquery_server(osc_port: i32, ws_port: i32) -> (r: Result<Protocol, Error>)
        ensures
            match r {
                Ok(p) => is_port(osc_port as int) && is_port(ws_port as int) && p@ == (
                ProtocolModel::OscQueryServer { osc_port: osc_port as u16, ws_port: ws_port as u16 }),
                Err(e) => e == Error::TransportError && !(is_port(osc_port as int) && is_port(
                    ws_port as int,
                )),
            },
    {
        if osc_port < 0 || osc_port > 0xffff || ws_port < 0 || ws_port > 0xffff {
            return Err(Error::TransportError);
        }
        Ok(Protocol::OscQueryServer { osc_port: osc_port as u16, ws_port: ws_port as u16 })
    }

    /// An OSCQuery mirror of the namespace served at `host`.
    pub fn oscquery_mirror(host: &str) -> (r: Protocol)
        ensures
            r@ == (ProtocolModel::OscQueryMirror { host: host@ }),
    {
        Protocol::OscQueryMirror { host: host.to_owned() }
    }
}

impl ProtocolModel {
    /// Whether the protocol mirrors a remote namespace: an OSCQuery mirror does, and so does
    /// a multiplexer with a member that does.
    pub open spec fn mirrors(self) -> bool
        decreases self,
    {
        match self {
            ProtocolModel::OscQueryMirror { .. } => true,
            ProtocolModel::Multiplex { members, edges } => exists|i: int|
                0 <= i < members.len() && (#[trigger] members[i]).mirrors(),
            _ => false,
        }
    }
}

/// The positions below `n` of the protocols that mirror a remote namespace, rising.
pub open spec fn mirrors_below(protocols: Seq<ProtocolModel>, n: int) -> Seq<usize>
    decreases n,
{
    if n <= 0 || n > protocols.len() {
        Seq::empty()
    } else if protocols[n - 1].mirrors() {
        mirrors_below(protocols, n - 1).push((n - 1) as usize)
    } else {
        mirrors_below(protocols, n - 1)
    }
}

impl Protocol {
    /// Whether the protocol mirrors a remote namespace.
    #[verifier::loop_isolation(false)]
    pub fn mirrors(&self) -> (r: bool)
        ensures
            r == self@.mirrors(),
        decreases self,
    {
        match self {
            Protocol::OscQueryMirror { .. } => true,
            Protocol::Multiplex { members, edges } => {
                let mut i: usize = 0;
                while i < members.len()
                    invariant
                        i <= members.len(),
                        forall|k: int| 0 <= k < i ==> !(#[trigger] self@->Multiplex_members[k]).mirrors(),
                    decreases members.len() - i,
                {
                    if members[i].mirrors() {
                        assert(self@->Multiplex_members[i as int].mirrors());
                        return true;
                    }
                    i += 1;
                }
                false
            },
            _ => false,
        }
    }
}

/// Whether `path` runs along exposure edges between members: at least one edge long, every
/// stop a member, every step an edge.
pub open spec fn is_route(edges: Seq<(usize, usize)>, n: int, path: Seq<usize>) -> bool {
    &&& path.len() >= 2
    &&& forall|i: int| 0 <= i < path.len() ==> (#[trigger] path[i]) < n
    &&& forall|i: int| 0 <= i < path.len() - 1 ==> edges.contains((#[trigger] path[i], path[i + 1]))
}

/// Whether a value that enters through member `a` comes to member `b` along exposure
/// edges.
#[verifier::opaque]
pub open spec fn reaches(edges: Seq<(usize, usize)>, n: int, a: usize, b: usize) -> bool {
    exists|path: Seq<usize>| #[trigger] is_route(edges, n, path) && path[0] == a && path.last() == b
}

/// Whether a value that enters through member `source` comes to the member at position `x`.
pub open spec fn reach_at(edges: Seq<(usize, usize)>, n: int, source: usize, x: int) -> bool {
    reaches(edges, n, source, x as usize)
}

/// The members below `k`, rising, that a value entering through `source` comes to, `source`
/// itself left out.
pub open spec fn targets_below(edges: Seq<(usize, usize)>, n: int, source: usize, k: int) -> Seq<usize>
    decreases k,
{
    if k <= 0 {
        Seq::empty()
    } else if k - 1 != source && reaches(edges, n, source, (k - 1) as usize) {
        targets_below(edges, n, source, k - 1).push((k - 1) as usize)
    } else {
        targets_below(edges, n, source, k - 1)
    }
}

/// The number of entries of `marks` that are false.
pub open spec fn count_false(marks: Seq<bool>) -> nat
    decreases marks.len(),
{
    if marks.len() == 0 {
        0
    } else {
        count_false(marks.drop_last()) + if marks.last() { 0nat } else { 1nat }
    }
}

/// Setting a false entry leaves one false entry less.
pub proof fn lemma_count_false_update(marks: Seq<bool>, i: int)
    requires
        0 <= i < marks.len(),
        !marks[i],
    ensures
        count_false(marks.update(i, true)) + 1 == count_false(marks),
    decreases marks.len(),
{
    let next = marks.update(i, true);
    if i == marks.len() - 1 {
        assert(next.drop_last() =~= marks.drop_last());
    } else {
        lemma_count_false_update(marks.drop_last(), i);
        assert(next.drop_last() =~= marks.drop_last().update(i, true));
    }
}

/// Whether the marks are closed under edge `e`: where its source is the entry member or
/// marked, its target is marked.
pub open spec fn closed_under(e: (usize, usize), marks: Seq<bool>, source: usize) -> bool {
    e.0 < marks.len() && e.1 < marks.len() && (e.0 == source || marks[e.0 as int]) ==> marks[e.1 as int]
}

/// Marks that are closed under every edge hold every member that a route from the entry
/// member comes to.
pub proof fn lemma_closed_holds_route(edges: Seq<(usize, usize)>, marks: Seq<bool>, source: usize, path: Seq<usize>)
    requires
        forall|j: int| 0 <= j < edges.len() ==> closed_under(#[trigger] edges[j], marks, source),
        is_route(edges, marks.len() as int, path),
        path[0] == source,
    ensures
        marks[path.last() as int],
    decreases path.len(),
{
    let last = path.len() - 1;
    assert(edges.contains((path[last - 1], path[last])));
    let j = choose|j: int| 0 <= j < edges.len() && edges[j] == (path[last - 1], path[last]);
    assert(closed_under(edges[j], marks, source));
    assert(path[last - 1] < marks.len() && path[last] < marks.len());
    if path.len() > 2 {
        let pre = path.drop_last();
        assert forall|i: int| 0 <= i < pre.len() - 1 implies edges.contains((#[trigger] pre[i], pre[i + 1])) by {
            assert(pre[i] == path[i] && pre[i + 1] == path[i + 1]);
        }
        assert forall|i: int| 0 <= i < pre.len() implies (#[trigger] pre[i]) < marks.len() by {
            assert(pre[i] == path[i]);
        }
        lemma_closed_holds_route(edges, marks, source, pre);
        assert(pre.last() == path[last - 1]);
    }
}

/// A route that ends at the source of an edge goes on along that edge.
pub proof fn lemma_route_extends(edges: Seq<(usize, usize)>, n: int, source: usize, a: usize, b: usize)
    requires
        edges.contains((a, b)),
        a < n,
        b < n,
        a == source || reaches(edges, n, source, a),
    ensures
        reaches(edges, n, source, b),
{
    reveal(reaches);
    if a == source {
        let path = seq![source, b];
        assert(is_route(edges, n, path));
        assert(path[0] == source && path.last() == b);
    } else {
        let pre = choose|path: Seq<usize>| #[trigger] is_route(edges, n, path) && path[0] == source && path.last() == a;
        let path = pre.push(b);
        assert forall|i: int| 0 <= i < path.len() - 1 implies edges.contains((#[trigger] path[i], path[i + 1])) by {
            if i < pre.len() - 1 {
                assert(path[i] == pre[i] && path[i + 1] == pre[i + 1]);
            }
        }
        assert forall|i: int| 0 <= i < path.len() implies (#[trigger] path[i]) < n by {
            if i < pre.len() {
                assert(path[i] == pre[i]);
            }
        }
        assert(is_route(edges, n, path));
        assert(path[0] == source && path.last() == b);
    }
}

/// The targets of a value are listed in rising order, each once, from among the members,
/// and the member it entered through is not among them.
pub proof fn lemma_targets(edges: Seq<(usize, usize)>, n: int, source: usize, k: int)
    requires
        k <= usize::MAX,
    ensures
        forall|i: int|
            0 <= i < targets_below(edges, n, source, k).len() ==> {
                let t = #[trigger] targets_below(edges, n, source, k)[i];
                t < k && t != source && reaches(edges, n, source, t)
            },
        forall|i: int, j: int|
            0 <= i < j < targets_below(edges, n, source, k).len() ==> (#[trigger] targets_below(
                edges,
                n,
                source,
                k,
            )[i]) < (#[trigger] targets_below(edges, n, source, k)[j]),
    decreases k,
{
    if k > 0 {
        lemma_targets(edges, n, source, k - 1);
        let pre = targets_below(edges, n, source, k - 1);
        let all = targets_below(edges, n, source, k);
        assert forall|i: int| 0 <= i < all.len() implies {
            let t = #[trigger] all[i];
            t < k && t != source && reaches(edges, n, source, t)
        } by {
            if i < pre.len() {
                assert(all[i] == pre[i]);
            }
        }
        assert forall|i: int, j: int| 0 <= i < j < all.len() implies (#[trigger] all[i]) < (#[trigger] all[j]) by {
            assert(all[i] == pre[i]);
            if j < pre.len() {
                assert(all[j] == pre[j]);
            }
        }
    }
}

impl ProtocolModel {
    /// The members that a value entering through member `source` is forwarded to: every
    /// member that exposure edges lead to from there, each once, by rising position, and
    /// never `source` itself. A protocol that is no multiplexer forwards to none.
    pub open spec fn routed(self, source: usize) -> Seq<usize> {
        match self {
            ProtocolModel::Multiplex { members, edges } => targets_below(
                edges,
                members.len() as int,
                source,
                members.len() as int,
            ),
            _ => Seq::empty(),
        }
    }
}

impl Protocol {
    /// A multiplexer of `local` and `other` that exposes `local` to `other`.
    pub fn multiplex(local: Protocol, other: Protocol) -> (r: Protocol)
        ensures
            r@ == (ProtocolModel::Multiplex { members: seq![local@, other@], edges: seq![(0usize, 1usize)] }),
    {
        let r = Protocol::Multiplex { members: vec![local, other], edges: vec![(0usize, 1usize)] };
        assert(r@->Multiplex_members =~= seq![local@, other@]);
        assert(r@->Multiplex_edges =~= seq![(0usize, 1usize)]);
        r
    }

    /// Adds a member to a multiplexer and returns its position. `Unsupported`, and no
    /// change, for a protocol that is no multiplexer.
    pub fn add_member(&mut self, member: Protocol) -> (r: Result<usize, Error>)
        ensures
            match r {
                Ok(k) => old(self)@ matches ProtocolModel::Multiplex { members, edges } && k == members.len()
                    && final(self)@ == (ProtocolModel::Multiplex { members: members.push(member@), edges }),
                Err(e) => e == Error::Unsupported && !(old(self)@ is Multiplex) && final(self)@ == old(self)@,
            },
    {
        match self {
            Protocol::Multiplex { members, edges } => {
                let k = members.len();
                let ghost before = old(self)@->Multiplex_members;
                members.push(member);
                proof {
                    assert(self@->Multiplex_members =~= before.push(member@));
                }
                Ok(k)
            },
            _ => Err(Error::Unsupported),
        }
    }

    /// Exposes member `source` to member `target`: what enters through `source` is from now
    /// on forwarded to `target`. An edge that is there already is not added again.
    ///
    /// `Unsupported` for a protocol that is no multiplexer, `InvalidArgument` where
    /// `source` or `target` is no member. In both cases nothing changes.
    pub fn expose_to(&mut self, source: usize, target: usize) -> (r: Result<(), Error>)
        ensures
            match r {
                Ok(_) => old(self)@ matches ProtocolModel::Multiplex { members, edges } && source < members.len()
                    && target < members.len() && final(self)@ == (ProtocolModel::Multiplex {
                    members,
                    edges: if edges.contains((source, target)) {
                        edges
                    } else {
                        edges.push((source, target))
                    },
                }),
                Err(e) => final(self)@ == old(self)@ && match old(self)@ {
                    ProtocolModel::Multiplex { members, edges } => e == Error::InvalidArgument && !(source
                        < members.len() && target < members.len()),
                    _ => e == Error::Unsupported,
                },
            },
    {
        match self {
            Protocol::Multiplex { members, edges } => {
                if source >= members.len() || target >= members.len() {
                    return Err(Error::InvalidArgument);
                }
                let mut j: usize = 0;
                let mut found = false;
                while j < edges.len()
                    invariant
                        j <= edges.len(),
                        found == exists|x: int| 0 <= x < j && #[trigger] edges[x] == (source, target),
                    decreases edges.len() - j,
                {
                    if edges[j].0 == source && edges[j].1 == target {
                        found = true;
                    }
                    j += 1;
                }
                let ghost before = edges@;
                let ghost same = old(self)@->Multiplex_members;
                if !found {
                    edges.push((source, target));
                }
                proof {
                    assert(self@->Multiplex_members =~= same);
                    if found {
                        let x = choose|x: int| 0 <= x < before.len() && #[trigger] before[x] == (source, target);
                        assert(before.contains((source, target)));
                    } else {
                        if before.contains((source, target)) {
                            let x = choose|x: int| 0 <= x < before.len() && before[x] == (source, target);
                            assert(before[x] == (source, target));
                        }
                    }
                }
                Ok(())
            },
            _ => Err(Error::Unsupported),
        }
    }

    /// The members that a value entering through member `source` is to be forwarded to.
    ///
    /// They are the members that exposure edges lead to from `source`, over any number of
    /// steps, each listed once, by rising position. `source` itself is never among them,
    /// whatever cycles the edges form.
    pub fn route(&self, source: usize) -> (r: Vec<usize>)
        ensures
            r@ == self@.routed(source),
            forall|i: int| 0 <= i < r@.len() ==> (#[trigger] r@[i]) != source,
            forall|i: int, j: int| 0 <= i < j < r@.len() ==> (#[trigger] r@[i]) < (#[trigger] r@[j]),
    {
        match self {
            Protocol::Multiplex { members, edges } => {
                let n = members.len();
                let ghost nn = n as int;
                assert(self@->Multiplex_members.len() == nn);
                assert(self@->Multiplex_edges == edges@);
                let marks = reach_marks(edges, n, source);
                let mut out: Vec<usize> = Vec::new();
                let mut t: usize = 0;
                while t < n
                    invariant
                        t <= n,
                        marks.len() == n,
                        forall|x: int| 0 <= x < n ==> (#[trigger] marks[x]) == reach_at(edges@, n as int, source, x),
                        out@ == targets_below(edges@, n as int, source, t as int),
                    decreases n - t,
                {
                    if t != source && marks[t] {
                        out.push(t);
                    }
                    t += 1;
                }
                proof {
                    lemma_targets(edges@, n as int, source, n as int);
                }
                out
            },
            _ => Vec::new(),
        }
    }
}

/// For every member, whether a value that enters through `source` comes to it.
fn reach_marks(edges: &Vec<(usize, usize)>, n: usize, source: usize) -> (r: Vec<bool>)
    ensures
        r.len() == n,
        forall|x: int| 0 <= x < n ==> (#[trigger] r[x]) == reach_at(edges@, n as int, source, x),
{
    let mut marks: Vec<bool> = Vec::new();
    let mut i: usize = 0;
    while i < n
        invariant
            i <= n,
            marks.len() == i,
            forall|x: int| 0 <= x < i ==> !(#[trigger] marks[x]),
        decreases n - i,
    {
        marks.push(false);
        i += 1;
    }
    let mut unmarked: usize = n;
    let mut changed = source < n;
    proof {
        reveal(reaches);
        lemma_all_false(marks@);
        if !changed {
            assert forall|x: int| 0 <= x < n implies !#[trigger] reach_at(edges@, n as int, source, x) by {
                if reach_at(edges@, n as int, source, x) {
                    let path = choose|path: Seq<usize>| #[trigger] is_route(edges@, n as int, path) && path[0] == source && path.last() == x as usize;
                    assert(path[0] < n);
                }
            }
        }
    }
    while changed
        invariant
            marks.len() == n,
            unmarked == count_false(marks@),
            forall|x: int| 0 <= x < n && (#[trigger] marks[x]) ==> reach_at(edges@, n as int, source, x),
            !changed ==> forall|x: int| 0 <= x < n ==> (#[trigger] marks[x]) == reach_at(edges@, n as int, source, x),
        decreases unmarked + (if changed { 1int } else { 0int }),
    {
        changed = false;
        let ghost at_start = marks@;
        let mut j: usize = 0;
        while j < edges.len()
            invariant
                j <= edges.len(),
                marks.len() == n,
                unmarked == count_false(marks@),
                forall|x: int| 0 <= x < n && (#[trigger] marks[x]) ==> reach_at(edges@, n as int, source, x),
                !changed ==> marks@ == at_start,
                !changed ==> forall|k: int| 0 <= k < j ==> closed_under(#[trigger] edges[k], marks@, source),
                changed ==> unmarked < count_false(at_start),
                unmarked <= count_false(at_start),
            decreases edges.len() - j,
        {
            let a = edges[j].0;
            let b = edges[j].1;
            if a < n && b < n && (a == source || marks[a]) && !marks[b] {
                proof {
                    assert(edges@.contains((a, b))) by {
                        assert(edges@[j as int] == (a, b));
                    }
                    lemma_route_extends(edges@, n as int, source, a, b);
                    lemma_count_false_update(marks@, b as int);
                }
                marks.set(b, true);
                unmarked = unmarked - 1;
                changed = true;
            }
            j += 1;
        }
        proof {
            reveal(reaches);
            if !changed {
                assert forall|x: int| 0 <= x < n implies (#[trigger] marks[x]) == reach_at(edges@, n as int, source, x) by {
                    if reach_at(edges@, n as int, source, x) {
                        let path = choose|path: Seq<usize>| #[trigger] is_route(edges@, n as int, path) && path[0] == source && path.last() == x as usize;
                        lemma_closed_holds_route(edges@, marks@, source, path);
                    }
                }
            }
        }
    }
    marks
}

/// Where every entry is false, as many are false as there are entries.
pub proof fn lemma_all_false(marks: Seq<bool>)
    requires
        forall|x: int| 0 <= x < marks.len() ==> !(#[trigger] marks[x]),
    ensures
        count_false(marks) == marks.len(),
    decreases marks.len(),
{
    if marks.len() > 0 {
        let pre = marks.drop_last();
        assert forall|x: int| 0 <= x < pre.len() implies !(#[trigger] pre[x]) by {
            assert(pre[x] == marks[x]);
        }
        lemma_all_false(pre);
        assert(!marks[marks.len() - 1]);
    }
}

/// Whatever cycles the exposure edges form, a value never comes back to the member it
/// entered through, it comes to no member twice, and it comes to every member that the
/// edges lead to and to no other.
pub proof fn lemma_routed_never_returns(p: ProtocolModel, source: usize)
    requires
        p matches ProtocolModel::Multiplex { members, edges } ==> members.len() <= usize::MAX,
    ensures
        !p.routed(source).contains(source),
        forall|i: int, j: int|
            0 <= i < j < p.routed(source).len() ==> (#[trigger] p.routed(source)[i]) != (#[trigger] p.routed(
                source,
            )[j]),
        p matches ProtocolModel::Multiplex { members, edges } ==> forall|t: usize|
            #![trigger p.routed(source).contains(t)]
            p.routed(source).contains(t) <==> (t < members.len() && t != source && reaches(
                edges,
                members.len() as int,
                source,
                t,
            )),
{
    match p {
        ProtocolModel::Multiplex { members, edges } => {
            let n = members.len() as int;
            let r = p.routed(source);
            lemma_targets(edges, n, source, n);
            if r.contains(source) {
                let i = choose|i: int| 0 <= i < r.len() && r[i] == source;
                assert(r[i] != source);
            }
            assert forall|t: usize| #![trigger r.contains(t)] r.contains(t) <==> (t < n && t != source && reaches(
                edges,
                n,
                source,
                t,
            )) by {
                if r.contains(t) {
                    let i = choose|i: int| 0 <= i < r.len() && r[i] == t;
                    assert(r[i] < n && r[i] != source && reaches(edges, n, source, r[i]));
                }
                if t < n && t != source && reaches(edges, n, source, t) {
                    lemma_targets_hold(edges, n, source, n, t);
                }
            }
        },
        _ => {
            let r = p.routed(source);
            assert(r.len() == 0);
        },
    }
}

/// Every member below the bound that a value comes to is among the targets.
pub proof fn lemma_targets_hold(edges: Seq<(usize, usize)>, n: int, source: usize, k: int, t: usize)
    requires
        t < k <= usize::MAX,
        t != source,
        reaches(edges, n, source, t),
    ensures
        targets_below(edges, n, source, k).contains(t),
    decreases k,
{
    let all = targets_below(edges, n, source, k);
    if t == k - 1 {
        assert(all[all.len() - 1] == t);
    } else {
        lemma_targets_hold(edges, n, source, k - 1, t);
        let pre = targets_below(edges, n, source, k - 1);
        let i = choose|i: int| 0 <= i < pre.len() && pre[i] == t;
        assert(all[i] == t);
    }
}

} // verus!
