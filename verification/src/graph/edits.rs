use vstd::prelude::*;
use crate::store::EntityId;
use crate::types::socket_type::{SocketType, compatible};
use super::NodeGraph;
use super::port::{PortDirection, PortSocketType};
use super::connection::ConnectionEndpoints;

verus! {

/// Far ends of the first `j` connections of `cs` that run into port `p`
/// (sources) or out of it (targets), in order.
pub open spec fn far_ends<F: Copy>(g: NodeGraph<F>, cs: Seq<EntityId>, p: EntityId, into: bool, j: nat) -> Seq<EntityId>
    decreases j,
{
    if j == 0 || j > cs.len() {
        Seq::empty()
    } else {
        let before = far_ends(g, cs, p, into, (j - 1) as nat);
        match g.endpoints(cs[j - 1]) {
            Some(ep) => if into && ep.target_port == p {
                before.push(ep.source_port)
            } else if !into && ep.source_port == p {
                before.push(ep.target_port)
            } else {
                before
            },
            None => before,
        }
    }
}

/// Over the first `k` ports of `ps` that have direction `dir`: the far
/// ends of their connections, upstream ports for inputs and downstream
/// ports for outputs, in order.
pub open spec fn flow_ends<F: Copy>(g: NodeGraph<F>, ps: Seq<EntityId>, dir: PortDirection, k: nat) -> Seq<EntityId>
    decreases k,
{
    if k == 0 || k > ps.len() {
        Seq::empty()
    } else {
        let before = flow_ends(g, ps, dir, (k - 1) as nat);
        let p = ps[k - 1];
        if g.dir_of(p) == Some(dir) {
            before + far_ends(g, g.conns_of(p), p, dir == PortDirection::Input, g.conns_of(p).len())
        } else {
            before
        }
    }
}

/// The first downstream port, from index `j` of `downs` on, that is not in
/// `used` and whose type a port of type `ut` can feed.
pub open spec fn pick_downstream<F: Copy>(
    g: NodeGraph<F>,
    ut: SocketType,
    downs: Seq<EntityId>,
    used: Seq<EntityId>,
    j: int,
) -> Option<EntityId>
    decreases downs.len() - j,
{
    if j < 0 || j >= downs.len() {
        None
    } else if !used.contains(downs[j]) && (g.socket_of(downs[j]) matches Some(dt) && compatible(ut, dt)) {
        Some(downs[j])
    } else {
        pick_downstream(g, ut, downs, used, j + 1)
    }
}

/// The bridges made for the first `i` upstream ports: each upstream port,
/// in order, is paired with the first downstream port not paired yet that
/// it can feed.
pub open spec fn bridges<F: Copy>(g: NodeGraph<F>, ups: Seq<EntityId>, downs: Seq<EntityId>, i: nat) -> Seq<
    (EntityId, EntityId),
>
    decreases i,
{
    if i == 0 || i > ups.len() {
        Seq::empty()
    } else {
        let before = bridges(g, ups, downs, (i - 1) as nat);
        let used = before.map_values(|b: (EntityId, EntityId)| b.1);
        match g.socket_of(ups[i - 1]) {
            Some(ut) => match pick_downstream(g, ut, downs, used, 0) {
                Some(d) => before.push((ups[i - 1], d)),
                None => before,
            },
            None => before,
        }
    }
}

/// The bridges for node `n`: its upstream ports paired with its downstream
/// ports, for reconnecting around it when it is deleted.
pub open spec fn node_bridges<F: Copy>(g: NodeGraph<F>, n: EntityId) -> Seq<(EntityId, EntityId)> {
    let ps = g.ports_of(n);
    let ups = flow_ends(g, ps, PortDirection::Input, ps.len());
    let downs = flow_ends(g, ps, PortDirection::Output, ps.len());
    bridges(g, ups, downs, ups.len())
}

/// The first port of `ps`, from index `j` on, with direction `dir` whose
/// type fits `t`: for an input, a type that `t` can feed; for an output, a
/// type that can feed `t`.
pub open spec fn first_fitting<F: Copy>(
    g: NodeGraph<F>,
    ps: Seq<EntityId>,
    dir: PortDirection,
    t: SocketType,
    j: int,
) -> Option<EntityId>
    decreases ps.len() - j,
{
    if j < 0 || j >= ps.len() {
        None
    } else if g.dir_of(ps[j]) == Some(dir) && (g.socket_of(ps[j]) matches Some(pt) && (if dir
        == PortDirection::Input {
        compatible(t, pt)
    } else {
        compatible(pt, t)
    })) {
        Some(ps[j])
    } else {
        first_fitting(g, ps, dir, t, j + 1)
    }
}

/// Where node `n` can be spliced into connection `c`: its first input port
/// that the connection's source can feed and its first output port that
/// can feed the connection's target.
pub open spec fn splice_ports<F: Copy>(g: NodeGraph<F>, n: EntityId, c: EntityId) -> Option<(EntityId, EntityId)> {
    match g.endpoints(c) {
        Some(ep) => match (g.socket_of(ep.source_port), g.socket_of(ep.target_port)) {
            (Some(st), Some(tt)) => match (
                first_fitting(g, g.ports_of(n), PortDirection::Input, st, 0),
                first_fitting(g, g.ports_of(n), PortDirection::Output, tt, 0),
            ) {
                (Some(i), Some(o)) => Some((i, o)),
                _ => None,
            },
            _ => None,
        },
        None => None,
    }
}

/// Port `ps[i]` has direction `dir` and a type that fits `t`.
spec fn fits_at<F: Copy>(g: NodeGraph<F>, ps: Seq<EntityId>, dir: PortDirection, t: SocketType, i: int) -> bool {
    g.dir_of(ps[i]) == Some(dir) && (g.socket_of(ps[i]) matches Some(pt) && (if dir == PortDirection::Input {
        compatible(t, pt)
    } else {
        compatible(pt, t)
    }))
}

proof fn lemma_first_fitting_first<F: Copy>(g: NodeGraph<F>, ps: Seq<EntityId>, dir: PortDirection, t: SocketType, j: int)
    requires
        0 <= j,
    ensures
        match first_fitting(g, ps, dir, t, j) {
            Some(x) => exists|i: int|
                j <= i < ps.len() && ps[i] == x && fits_at(g, ps, dir, t, i) && forall|i2: int|
                    j <= i2 < i ==> !fits_at(g, ps, dir, t, i2),
            None => forall|i: int| j <= i < ps.len() ==> !fits_at(g, ps, dir, t, i),
        },
    decreases ps.len() - j,
{
    if j < ps.len() {
        lemma_first_fitting_first(g, ps, dir, t, j + 1);
        if fits_at(g, ps, dir, t, j) {
            assert(first_fitting(g, ps, dir, t, j) == Some(ps[j]));
        } else {
            assert(first_fitting(g, ps, dir, t, j) == first_fitting(g, ps, dir, t, j + 1));
        }
    }
}

/// Node `n` can be spliced into connection `c` exactly when it has an
/// input port whose type the connection's source type can feed and an
/// output port whose type can feed the connection's target type; the
/// ports chosen are the first such input and the first such output.
pub proof fn lemma_splice_ports_first_fitting<F: Copy>(g: NodeGraph<F>, n: EntityId, c: EntityId)
    ensures
        g.endpoints(c) matches Some(ep) ==> (g.socket_of(ep.source_port) matches Some(st) ==> (g.socket_of(ep.target_port) matches Some(
            tt,
        ) ==> {
            let ps = g.ports_of(n);
            &&& splice_ports(g, n, c) is Some <==> (exists|i: int|
                0 <= i < ps.len() && g.dir_of(#[trigger] ps[i]) == Some(PortDirection::Input) && (g.socket_of(ps[i]) matches Some(pt)
                    && compatible(st, pt))) && (exists|o: int|
                0 <= o < ps.len() && g.dir_of(#[trigger] ps[o]) == Some(PortDirection::Output) && (g.socket_of(ps[o]) matches Some(
                    pt,
                ) && compatible(pt, tt)))
            &&& splice_ports(g, n, c) matches Some((pi, po)) ==> {
                &&& exists|i: int|
                    0 <= i < ps.len() && ps[i] == pi && g.dir_of(ps[i]) == Some(PortDirection::Input) && (g.socket_of(ps[i]) matches Some(
                        pt,
                    ) && compatible(st, pt)) && forall|i2: int|
                        0 <= i2 < i ==> !(g.dir_of(#[trigger] ps[i2]) == Some(PortDirection::Input) && (g.socket_of(ps[i2]) matches Some(
                            pt,
                        ) && compatible(st, pt)))
                &&& exists|o: int|
                    0 <= o < ps.len() && ps[o] == po && g.dir_of(ps[o]) == Some(PortDirection::Output) && (g.socket_of(ps[o]) matches Some(
                        pt,
                    ) && compatible(pt, tt)) && forall|o2: int|
                        0 <= o2 < o ==> !(g.dir_of(#[trigger] ps[o2]) == Some(PortDirection::Output) && (g.socket_of(ps[o2]) matches Some(
                            pt,
                        ) && compatible(pt, tt)))
            }
        })),
{
    match g.endpoints(c) {
        Some(ep) => match (g.socket_of(ep.source_port), g.socket_of(ep.target_port)) {
            (Some(st), Some(tt)) => {
                let ps = g.ports_of(n);
                lemma_first_fitting_first(g, ps, PortDirection::Input, st, 0);
                lemma_first_fitting_first(g, ps, PortDirection::Output, tt, 0);
                assert forall|i: int| 0 <= i < ps.len() implies fits_at(g, ps, PortDirection::Input, st, i) == (g.dir_of(
                    #[trigger] ps[i],
                ) == Some(PortDirection::Input) && (g.socket_of(ps[i]) matches Some(pt) && compatible(st, pt))) by {}
                assert forall|i: int| 0 <= i < ps.len() implies fits_at(g, ps, PortDirection::Output, tt, i) == (g.dir_of(
                    #[trigger] ps[i],
                ) == Some(PortDirection::Output) && (g.socket_of(ps[i]) matches Some(pt) && compatible(pt, tt))) by {}
            },
            _ => {},
        },
        None => {},
    }
}

proof fn lemma_far_ends_member<F: Copy>(g: NodeGraph<F>, cs: Seq<EntityId>, p: EntityId, into: bool, j: nat, x: EntityId)
    requires
        j <= cs.len(),
    ensures
        far_ends(g, cs, p, into, j).contains(x) <==> exists|a: int|
            0 <= a < j && (g.endpoints(#[trigger] cs[a]) matches Some(ep) && (if into {
                ep.target_port == p && ep.source_port == x
            } else {
                ep.source_port == p && ep.target_port == x
            })),
    decreases j,
{
    if j > 0 {
        lemma_far_ends_member(g, cs, p, into, (j - 1) as nat, x);
        let before = far_ends(g, cs, p, into, (j - 1) as nat);
        let c = cs[j - 1];
        let hit = g.endpoints(c) matches Some(ep) && (if into { ep.target_port == p } else { ep.source_port == p });
        if hit {
            let ep = g.endpoints(c)->0;
            let y = if into { ep.source_port } else { ep.target_port };
            assert(far_ends(g, cs, p, into, j) == before.push(y));
            assert(before.push(y)[before.len() as int] == y);
            if before.contains(x) {
                let i = choose|i: int| 0 <= i < before.len() && before[i] == x;
                assert(before.push(y)[i] == x);
            }
            if before.push(y).contains(x) {
                let i = choose|i: int| 0 <= i < before.len() + 1 && before.push(y)[i] == x;
                if i < before.len() {
                    assert(before[i] == x);
                }
            }
        } else {
            assert(far_ends(g, cs, p, into, j) == before);
        }
    }
}

proof fn lemma_flow_ends_member<F: Copy>(g: NodeGraph<F>, ps: Seq<EntityId>, dir: PortDirection, k: nat, x: EntityId)
    requires
        k <= ps.len(),
    ensures
        flow_ends(g, ps, dir, k).contains(x) <==> exists|b: int|
            0 <= b < k && g.dir_of(#[trigger] ps[b]) == Some(dir) && far_ends(
                g,
                g.conns_of(ps[b]),
                ps[b],
                dir == PortDirection::Input,
                g.conns_of(ps[b]).len(),
            ).contains(x),
    decreases k,
{
    if k > 0 {
        lemma_flow_ends_member(g, ps, dir, (k - 1) as nat, x);
        let before = flow_ends(g, ps, dir, (k - 1) as nat);
        let p = ps[k - 1];
        if g.dir_of(p) == Some(dir) {
            let fe = far_ends(g, g.conns_of(p), p, dir == PortDirection::Input, g.conns_of(p).len());
            assert(flow_ends(g, ps, dir, k) == before + fe);
            if before.contains(x) {
                let i = choose|i: int| 0 <= i < before.len() && before[i] == x;
                assert((before + fe)[i] == x);
            }
            if fe.contains(x) {
                let i = choose|i: int| 0 <= i < fe.len() && fe[i] == x;
                assert((before + fe)[before.len() + i] == x);
            }
            if (before + fe).contains(x) {
                let i = choose|i: int| 0 <= i < before.len() + fe.len() && (before + fe)[i] == x;
                if i < before.len() {
                    assert(before[i] == x);
                } else {
                    assert(fe[i - before.len()] == x);
                }
            }
        } else {
            assert(flow_ends(g, ps, dir, k) == before);
        }
    }
}

/// The upstream ports of node `n`, which its deletion bridges from, are
/// exactly the ports that feed one of its input ports; its downstream
/// ports are exactly the ports fed by one of its output ports.
pub proof fn lemma_flow_ends_of_node<F: Copy>(g: NodeGraph<F>, n: EntityId, x: EntityId)
    requires
        g.wf(),
    ensures
        flow_ends(g, g.ports_of(n), PortDirection::Input, g.ports_of(n).len()).contains(x) <==> exists|c: EntityId, p: EntityId|
            #![trigger g.endpoints(c), g.dir_of(p)]
            g.endpoints(c) == Some(ConnectionEndpoints { source_port: x, target_port: p }) && g.ports_of(n).contains(p)
                && g.dir_of(p) == Some(PortDirection::Input),
        flow_ends(g, g.ports_of(n), PortDirection::Output, g.ports_of(n).len()).contains(x) <==> exists|c: EntityId, p: EntityId|
            #![trigger g.endpoints(c), g.dir_of(p)]
            g.endpoints(c) == Some(ConnectionEndpoints { source_port: p, target_port: x }) && g.ports_of(n).contains(p)
                && g.dir_of(p) == Some(PortDirection::Output),
{
    let ps = g.ports_of(n);
    lemma_flow_ends_member(g, ps, PortDirection::Input, ps.len(), x);
    lemma_flow_ends_member(g, ps, PortDirection::Output, ps.len(), x);
    if flow_ends(g, ps, PortDirection::Input, ps.len()).contains(x) {
        let b = choose|b: int|
            0 <= b < ps.len() && g.dir_of(#[trigger] ps[b]) == Some(PortDirection::Input) && far_ends(
                g,
                g.conns_of(ps[b]),
                ps[b],
                true,
                g.conns_of(ps[b]).len(),
            ).contains(x);
        let p = ps[b];
        lemma_far_ends_member(g, g.conns_of(p), p, true, g.conns_of(p).len(), x);
        let a = choose|a: int|
            0 <= a < g.conns_of(p).len() && (g.endpoints(#[trigger] g.conns_of(p)[a]) matches Some(ep) && (ep.target_port == p
                && ep.source_port == x));
        let c = g.conns_of(p)[a];
        assert(g.endpoints(c) == Some(ConnectionEndpoints { source_port: x, target_port: p }));
        assert(ps.contains(p));
    }
    if exists|c: EntityId, p: EntityId|
            #![trigger g.endpoints(c), g.dir_of(p)]
        g.endpoints(c) == Some(ConnectionEndpoints { source_port: x, target_port: p }) && ps.contains(p) && g.dir_of(p)
            == Some(PortDirection::Input) {
        let (c, p) = choose|c: EntityId, p: EntityId|
            #![trigger g.endpoints(c), g.dir_of(p)]
            g.endpoints(c) == Some(ConnectionEndpoints { source_port: x, target_port: p }) && ps.contains(p) && g.dir_of(p)
                == Some(PortDirection::Input);
        let b = choose|b: int| 0 <= b < ps.len() && ps[b] == p;
        assert(g.conns_of(p).contains(c));
        let a = choose|a: int| 0 <= a < g.conns_of(p).len() && g.conns_of(p)[a] == c;
        lemma_far_ends_member(g, g.conns_of(p), p, true, g.conns_of(p).len(), x);
        assert(g.endpoints(g.conns_of(p)[a]) matches Some(ep) && (ep.target_port == p && ep.source_port == x));
        assert(far_ends(g, g.conns_of(ps[b]), ps[b], true, g.conns_of(ps[b]).len()).contains(x));
    }
    if flow_ends(g, ps, PortDirection::Output, ps.len()).contains(x) {
        let b = choose|b: int|
            0 <= b < ps.len() && g.dir_of(#[trigger] ps[b]) == Some(PortDirection::Output) && far_ends(
                g,
                g.conns_of(ps[b]),
                ps[b],
                false,
                g.conns_of(ps[b]).len(),
            ).contains(x);
        let p = ps[b];
        lemma_far_ends_member(g, g.conns_of(p), p, false, g.conns_of(p).len(), x);
        let a = choose|a: int|
            0 <= a < g.conns_of(p).len() && (g.endpoints(#[trigger] g.conns_of(p)[a]) matches Some(ep) && (ep.source_port == p
                && ep.target_port == x));
        let c = g.conns_of(p)[a];
        assert(g.endpoints(c) == Some(ConnectionEndpoints { source_port: p, target_port: x }));
        assert(ps.contains(p));
    }
    if exists|c: EntityId, p: EntityId|
            #![trigger g.endpoints(c), g.dir_of(p)]
        g.endpoints(c) == Some(ConnectionEndpoints { source_port: p, target_port: x }) && ps.contains(p) && g.dir_of(p)
            == Some(PortDirection::Output) {
        let (c, p) = choose|c: EntityId, p: EntityId|
            #![trigger g.endpoints(c), g.dir_of(p)]
            g.endpoints(c) == Some(ConnectionEndpoints { source_port: p, target_port: x }) && ps.contains(p) && g.dir_of(p)
                == Some(PortDirection::Output);
        let b = choose|b: int| 0 <= b < ps.len() && ps[b] == p;
        assert(g.conns_of(p).contains(c));
        let a = choose|a: int| 0 <= a < g.conns_of(p).len() && g.conns_of(p)[a] == c;
        lemma_far_ends_member(g, g.conns_of(p), p, false, g.conns_of(p).len(), x);
        assert(g.endpoints(g.conns_of(p)[a]) matches Some(ep) && (ep.source_port == p && ep.target_port == x));
        assert(far_ends(g, g.conns_of(ps[b]), ps[b], false, g.conns_of(ps[b]).len()).contains(x));
    }
}

proof fn lemma_first_fitting_in<F: Copy>(g: NodeGraph<F>, ps: Seq<EntityId>, dir: PortDirection, t: SocketType, j: int)
    requires
        0 <= j,
    ensures
        first_fitting(g, ps, dir, t, j) matches Some(x) ==> ps.contains(x) && g.dir_of(x) == Some(dir),
    decreases ps.len() - j,
{
    if j < ps.len() {
        lemma_first_fitting_in(g, ps, dir, t, j + 1);
    }
}

/// Two graphs agree on the port data that connecting `a` to `b` reads.
/// Port `p` is an end of one of the bridges `bs`.
pub open spec fn bridge_end(bs: Seq<(EntityId, EntityId)>, p: EntityId) -> bool {
    exists|k: int| 0 <= k < bs.len() && ((#[trigger] bs[k]).0 == p || bs[k].1 == p)
}

pub open spec fn same_port_data<F: Copy>(g0: NodeGraph<F>, g1: NodeGraph<F>, p: EntityId) -> bool {
    &&& g1.dir_of(p) == g0.dir_of(p)
    &&& g1.owner_of(p) == g0.owner_of(p)
    &&& g1.socket_of(p) == g0.socket_of(p)
}

pub(crate) proof fn lemma_validation_same<F: Copy>(g0: NodeGraph<F>, g1: NodeGraph<F>, a: EntityId, b: EntityId)
    requires
        same_port_data(g0, g1, a),
        same_port_data(g0, g1, b),
    ensures
        g1.validation(a, b) == g0.validation(a, b),
{
}

proof fn lemma_far_ends_dirs<F: Copy>(g: NodeGraph<F>, cs: Seq<EntityId>, p: EntityId, into: bool, j: nat)
    requires
        g.wf(),
    ensures
        forall|x: EntityId|
            #[trigger] far_ends(g, cs, p, into, j).contains(x) ==> g.owner_of(x) is Some && g.dir_of(x) == Some(
                if into { PortDirection::Output } else { PortDirection::Input },
            ),
    decreases j,
{
    if j > 0 && j <= cs.len() {
        lemma_far_ends_dirs(g, cs, p, into, (j - 1) as nat);
        let before = far_ends(g, cs, p, into, (j - 1) as nat);
        assert forall|x: EntityId| #[trigger] far_ends(g, cs, p, into, j).contains(x) implies g.owner_of(x) is Some
            && g.dir_of(x) == Some(if into { PortDirection::Output } else { PortDirection::Input }) by {
            if !before.contains(x) {
                let ep = g.endpoints(cs[j - 1])->0;
                assert(g.endpoints(cs[j - 1]) is Some);
                let k = choose|k: int| 0 <= k < far_ends(g, cs, p, into, j).len() && far_ends(g, cs, p, into, j)[k] == x;
                if k < before.len() {
                    assert(before.contains(x));
                }
            }
        }
    }
}

proof fn lemma_flow_ends_dirs<F: Copy>(g: NodeGraph<F>, ps: Seq<EntityId>, dir: PortDirection, k: nat)
    requires
        g.wf(),
    ensures
        forall|x: EntityId|
            #[trigger] flow_ends(g, ps, dir, k).contains(x) ==> g.owner_of(x) is Some && g.dir_of(x) == Some(
                if dir == PortDirection::Input { PortDirection::Output } else { PortDirection::Input },
            ),
    decreases k,
{
    if k > 0 && k <= ps.len() {
        lemma_flow_ends_dirs(g, ps, dir, (k - 1) as nat);
        let p = ps[k - 1];
        let before = flow_ends(g, ps, dir, (k - 1) as nat);
        if g.dir_of(p) == Some(dir) {
            let fe = far_ends(g, g.conns_of(p), p, dir == PortDirection::Input, g.conns_of(p).len());
            lemma_far_ends_dirs(g, g.conns_of(p), p, dir == PortDirection::Input, g.conns_of(p).len());
            assert forall|x: EntityId| #[trigger] flow_ends(g, ps, dir, k).contains(x) implies g.owner_of(x) is Some
                && g.dir_of(x) == Some(if dir == PortDirection::Input { PortDirection::Output } else { PortDirection::Input }) by {
                let all = before + fe;
                let a = choose|a: int| 0 <= a < all.len() && all[a] == x;
                if a < before.len() {
                    assert(before.contains(x));
                } else {
                    assert(fe[a - before.len()] == x);
                    assert(fe.contains(x));
                }
            }
        }
    }
}

proof fn lemma_pick_downstream<F: Copy>(g: NodeGraph<F>, ut: SocketType, downs: Seq<EntityId>, used: Seq<EntityId>, j: int)
    requires
        0 <= j,
    ensures
        pick_downstream(g, ut, downs, used, j) matches Some(d) ==> downs.contains(d) && !used.contains(d),
    decreases downs.len() - j,
{
    if j < downs.len() {
        lemma_pick_downstream(g, ut, downs, used, j + 1);
    }
}

/// The `k`-th bridge of `bs` goes to the first port of `downs` that no
/// earlier bridge goes to and whose type the bridge's upstream type can
/// feed.
pub open spec fn first_free_fit<F: Copy>(g: NodeGraph<F>, downs: Seq<EntityId>, bs: Seq<(EntityId, EntityId)>, k: int) -> bool {
    exists|jj: int|
        0 <= jj < downs.len() && downs[jj] == bs[k].1 && forall|m: int|
            0 <= m < jj ==> bs.subrange(0, k).map_values(|b: (EntityId, EntityId)| b.1).contains(#[trigger] downs[m]) || !(
            g.socket_of(bs[k].0) matches Some(ut) && (g.socket_of(downs[m]) matches Some(dt) && compatible(ut, dt)))
}

proof fn lemma_pick_result<F: Copy>(g: NodeGraph<F>, ut: SocketType, downs: Seq<EntityId>, used: Seq<EntityId>, j: int)
    requires
        0 <= j,
    ensures
        match pick_downstream(g, ut, downs, used, j) {
            Some(d) => (g.socket_of(d) matches Some(dt) && compatible(ut, dt)) && exists|jj: int|
                j <= jj < downs.len() && downs[jj] == d && forall|m: int|
                    j <= m < jj ==> used.contains(#[trigger] downs[m]) || !(g.socket_of(downs[m]) matches Some(dt) && compatible(
                        ut,
                        dt,
                    )),
            None => forall|m: int|
                j <= m < downs.len() ==> used.contains(#[trigger] downs[m]) || !(g.socket_of(downs[m]) matches Some(dt)
                    && compatible(ut, dt)),
        },
    decreases downs.len() - j,
{
    if j < downs.len() {
        lemma_pick_result(g, ut, downs, used, j + 1);
        if !used.contains(downs[j]) && (g.socket_of(downs[j]) matches Some(dt) && compatible(ut, dt)) {
            assert(pick_downstream(g, ut, downs, used, j) == Some(downs[j]));
        } else {
            assert(pick_downstream(g, ut, downs, used, j) == pick_downstream(g, ut, downs, used, j + 1));
        }
    }
}

proof fn lemma_bridges_maximal_upto<F: Copy>(g: NodeGraph<F>, ups: Seq<EntityId>, downs: Seq<EntityId>, i: nat)
    requires
        i <= ups.len(),
    ensures
        forall|k: int|
            0 <= k < bridges(g, ups, downs, i).len() ==> (g.socket_of((#[trigger] bridges(g, ups, downs, i)[k]).0) matches Some(
                ut,
            ) && (g.socket_of(bridges(g, ups, downs, i)[k].1) matches Some(dt) && compatible(ut, dt))),
        forall|a: int, d: EntityId|
            #![trigger ups[a], downs.contains(d)]
            0 <= a < i && (forall|k: int|
                0 <= k < bridges(g, ups, downs, i).len() ==> (#[trigger] bridges(g, ups, downs, i)[k]).0 != ups[a])
                && downs.contains(d) && !bridges(g, ups, downs, i).map_values(|b: (EntityId, EntityId)| b.1).contains(d) ==> (
            g.socket_of(ups[a]) matches Some(ut) ==> !(g.socket_of(d) matches Some(dt) && compatible(ut, dt))),
        forall|k: int|
            0 <= k < bridges(g, ups, downs, i).len() ==> first_free_fit(g, downs, bridges(g, ups, downs, i), k),
    decreases i,
{
    if i > 0 {
        lemma_bridges_maximal_upto(g, ups, downs, (i - 1) as nat);
        let before = bridges(g, ups, downs, (i - 1) as nat);
        let used = before.map_values(|b: (EntityId, EntityId)| b.1);
        let bi = bridges(g, ups, downs, i);
        let u = ups[i - 1];
        let grew = g.socket_of(u) matches Some(ut) && pick_downstream(g, ut, downs, used, 0) is Some;
        if grew {
            let ut = g.socket_of(u)->0;
            let d0 = pick_downstream(g, ut, downs, used, 0)->0;
            lemma_pick_result(g, ut, downs, used, 0);
            assert(bi == before.push((u, d0)));
            assert(bi.map_values(|b: (EntityId, EntityId)| b.1) =~= used.push(d0));
            assert forall|k: int| 0 <= k < before.len() implies #[trigger] bi[k] == before[k] by {}
            assert(bi[before.len() as int] == (u, d0));
        } else {
            match g.socket_of(u) {
                Some(ut) => {
                    lemma_pick_result(g, ut, downs, used, 0);
                },
                None => {},
            }
            assert(bi == before);
        }
        assert forall|k: int| 0 <= k < bi.len() implies first_free_fit(g, downs, bi, k) by {
            if k < before.len() {
                assert(bi.subrange(0, k) =~= before.subrange(0, k));
                assert(bi[k] == before[k]);
                assert(first_free_fit(g, downs, before, k));
            } else {
                assert(bi.subrange(0, k) =~= before);
                assert(bi.subrange(0, k).map_values(|b: (EntityId, EntityId)| b.1) =~= used);
            }
        }
        assert forall|k: int| 0 <= k < bi.len() implies (g.socket_of((#[trigger] bi[k]).0) matches Some(ut) && (g.socket_of(
            bi[k].1,
        ) matches Some(dt) && compatible(ut, dt))) by {
            if k < before.len() {
                assert(bi[k] == before[k]);
            }
        }
        assert forall|a: int, d: EntityId|
            #![trigger ups[a], downs.contains(d)]
            0 <= a < i && (forall|k: int| 0 <= k < bi.len() ==> (#[trigger] bi[k]).0 != ups[a]) && downs.contains(d)
                && !bi.map_values(|b: (EntityId, EntityId)| b.1).contains(d) implies (g.socket_of(ups[a]) matches Some(ut)
            ==> !(g.socket_of(d) matches Some(dt) && compatible(ut, dt))) by {
            if grew {
                let d0 = bi[before.len() as int].1;
                assert(bi[before.len() as int].0 == u);
                assert(a != i - 1);
                assert forall|k: int| 0 <= k < before.len() implies (#[trigger] before[k]).0 != ups[a] by {
                    assert(bi[k] == before[k]);
                }
                assert(!used.contains(d)) by {
                    if used.contains(d) {
                        let m = choose|m: int| 0 <= m < used.len() && used[m] == d;
                        assert(bi.map_values(|b: (EntityId, EntityId)| b.1)[m] == d);
                    }
                }
            } else {
                if a == i - 1 {
                    let m = choose|m: int| 0 <= m < downs.len() && downs[m] == d;
                    assert(downs[m] == d);
                }
            }
        }
    }
}

/// Every bridge around node `n` joins one of its upstream ports to one of
/// its downstream ports whose type the upstream type can feed, namely the
/// first such downstream port that no earlier bridge took, and no
/// downstream port gets two bridges.
pub proof fn lemma_bridges_compatible<F: Copy>(g: NodeGraph<F>, n: EntityId)
    ensures
        node_bridges(g, n).map_values(|b: (EntityId, EntityId)| b.1).no_duplicates(),
        forall|k: int|
            0 <= k < node_bridges(g, n).len() ==> {
                &&& flow_ends(g, g.ports_of(n), PortDirection::Input, g.ports_of(n).len()).contains(
                    (#[trigger] node_bridges(g, n)[k]).0,
                )
                &&& flow_ends(g, g.ports_of(n), PortDirection::Output, g.ports_of(n).len()).contains(node_bridges(g, n)[k].1)
                &&& g.socket_of(node_bridges(g, n)[k].0) matches Some(ut) && (g.socket_of(node_bridges(g, n)[k].1) matches Some(
                    dt,
                ) && compatible(ut, dt))
                &&& first_free_fit(
                    g,
                    flow_ends(g, g.ports_of(n), PortDirection::Output, g.ports_of(n).len()),
                    node_bridges(g, n),
                    k,
                )
            },
{
    let ps = g.ports_of(n);
    let ups = flow_ends(g, ps, PortDirection::Input, ps.len());
    let downs = flow_ends(g, ps, PortDirection::Output, ps.len());
    lemma_bridges_props(g, ups, downs, ups.len());
    lemma_bridges_maximal_upto(g, ups, downs, ups.len());
}

/// Deleting node `n` bridges every compatible pair it can: if an upstream
/// port `u` of `n` (one that feeds an input of `n`) and a downstream port
/// `d` (one fed by an output of `n`) have types such that `u`'s can feed
/// `d`'s, and no bridge goes to `d`, then some bridge starts at `u`.
pub proof fn lemma_bridges_maximal<F: Copy>(g: NodeGraph<F>, n: EntityId, u: EntityId, d: EntityId)
    requires
        flow_ends(g, g.ports_of(n), PortDirection::Input, g.ports_of(n).len()).contains(u),
        flow_ends(g, g.ports_of(n), PortDirection::Output, g.ports_of(n).len()).contains(d),
        g.socket_of(u) matches Some(ut) && (g.socket_of(d) matches Some(dt) && compatible(ut, dt)),
        forall|k: int| 0 <= k < node_bridges(g, n).len() ==> (#[trigger] node_bridges(g, n)[k]).1 != d,
    ensures
        exists|k: int| 0 <= k < node_bridges(g, n).len() && (#[trigger] node_bridges(g, n)[k]).0 == u,
{
    let ps = g.ports_of(n);
    let ups = flow_ends(g, ps, PortDirection::Input, ps.len());
    let downs = flow_ends(g, ps, PortDirection::Output, ps.len());
    let b = node_bridges(g, n);
    lemma_bridges_maximal_upto(g, ups, downs, ups.len());
    let a = choose|a: int| 0 <= a < ups.len() && ups[a] == u;
    assert(!b.map_values(|x: (EntityId, EntityId)| x.1).contains(d)) by {
        if b.map_values(|x: (EntityId, EntityId)| x.1).contains(d) {
            let vs = b.map_values(|x: (EntityId, EntityId)| x.1);
            let m = choose|m: int| 0 <= m < vs.len() && #[trigger] vs[m] == d;
            assert(b[m].1 == d);
        }
    }
    if forall|k: int| 0 <= k < b.len() ==> (#[trigger] b[k]).0 != ups[a] {
        assert(g.socket_of(ups[a]) matches Some(ut) ==> !(g.socket_of(d) matches Some(dt) && compatible(ut, dt)));
        assert(false);
    }
}

proof fn lemma_bridges_props<F: Copy>(g: NodeGraph<F>, ups: Seq<EntityId>, downs: Seq<EntityId>, i: nat)
    ensures
        bridges(g, ups, downs, i).map_values(|b: (EntityId, EntityId)| b.1).no_duplicates(),
        forall|k: int|
            0 <= k < bridges(g, ups, downs, i).len() ==> ups.contains((#[trigger] bridges(g, ups, downs, i)[k]).0)
                && downs.contains(bridges(g, ups, downs, i)[k].1),
    decreases i,
{
    if i > 0 && i <= ups.len() {
        lemma_bridges_props(g, ups, downs, (i - 1) as nat);
        let before = bridges(g, ups, downs, (i - 1) as nat);
        let used = before.map_values(|b: (EntityId, EntityId)| b.1);
        match g.socket_of(ups[i - 1]) {
            Some(ut) => {
                lemma_pick_downstream(g, ut, downs, used, 0);
                match pick_downstream(g, ut, downs, used, 0) {
                    Some(d) => {
                        let after = before.push((ups[i - 1], d));
                        assert(after.map_values(|b: (EntityId, EntityId)| b.1) =~= used.push(d));
                        assert(ups.contains(ups[i - 1]));
                    },
                    None => {},
                }
            },
            None => {},
        }
    }
}

impl<F: Copy> NodeGraph<F> {
    fn far_ends_of(&self, p: EntityId, into: bool, acc: &mut Vec<EntityId>)
        requires
            self.wf(),
        ensures
            final(acc)@ == old(acc)@ + far_ends(*self, self.conns_of(p), p, into, self.conns_of(p).len()),
    {
        let conns = self.port_connections(p);
        let ghost start = acc@;
        let mut j: usize = 0;
        while j < conns.len()
            invariant
                self.wf(),
                conns@ == self.conns_of(p),
                j <= conns@.len(),
                acc@ == start + far_ends(*self, conns@, p, into, j as nat),
            decreases conns.len() - j,
        {
            match self.world_ref().get::<ConnectionEndpoints>(conns[j]) {
                Some(ep) => {
                    if into && ep.target_port == p {
                        acc.push(ep.source_port);
                    } else if !into && ep.source_port == p {
                        acc.push(ep.target_port);
                    }
                },
                None => {},
            }
            j = j + 1;
            proof {
                assert(acc@ =~= start + far_ends(*self, conns@, p, into, j as nat));
            }
        }
    }

    fn flow_ends_of(&self, ports: &[EntityId], dir: PortDirection) -> (r: Vec<EntityId>)
        requires
            self.wf(),
        ensures
            r@ == flow_ends(*self, ports@, dir, ports@.len()),
    {
        let mut r: Vec<EntityId> = Vec::new();
        let mut k: usize = 0;
        while k < ports.len()
            invariant
                self.wf(),
                k <= ports@.len(),
                r@ == flow_ends(*self, ports@, dir, k as nat),
            decreases ports.len() - k,
        {
            let p = ports[k];
            match self.world_ref().get::<PortDirection>(p) {
                Some(d) => {
                    if *d == dir {
                        self.far_ends_of(p, dir == PortDirection::Input, &mut r);
                    }
                },
                None => {},
            }
            k = k + 1;
        }
        r
    }

    fn first_fitting_port(&self, ports: &[EntityId], dir: PortDirection, t: SocketType) -> (r: Option<EntityId>)
        requires
            self.wd().wf(),
        ensures
            r == first_fitting(*self, ports@, dir, t, 0),
    {
        let mut j: usize = 0;
        while j < ports.len()
            invariant
                self.wd().wf(),
                j <= ports@.len(),
                first_fitting(*self, ports@, dir, t, 0) == first_fitting(*self, ports@, dir, t, j as int),
            decreases ports.len() - j,
        {
            let p = ports[j];
            let d = self.world_ref().get::<PortDirection>(p);
            let pt = self.world_ref().get::<PortSocketType>(p);
            match (d, pt) {
                (Some(d), Some(pt)) => {
                    if *d == dir {
                        let fits = if dir == PortDirection::Input {
                            t.is_compatible_with(&pt.0)
                        } else {
                            pt.0.is_compatible_with(&t)
                        };
                        if fits {
                            return Some(p);
                        }
                    }
                },
                _ => {},
            }
            j = j + 1;
        }
        None
    }

    /// Splice node `node_id` into connection `conn_id`: the connection is
    /// removed, its source is connected to the node's first input port that
    /// it can feed, and the node's first output port that can feed the
    /// connection's target is connected to that target. Returns the two
    /// ports used, or `None`, changing nothing, when the connection or a
    /// fitting port is missing.
    pub fn insert_node_on_connection(&mut self, node_id: EntityId, conn_id: EntityId) -> (r: Option<(EntityId, EntityId)>)
        requires
            old(self).wf(),
            old(self).wd().room() >= 2,
        ensures
            final(self).wf(),
            r == splice_ports(*old(self), node_id, conn_id),
            r is None ==> *final(self) == *old(self),
            r matches Some((i, o)) ==> {
                let ep = old(self).endpoints(conn_id)->0;
                &&& (old(self).validation(ep.source_port, i) is Ok && i != ep.target_port) ==> exists|c: EntityId|
                    #[trigger] final(self).endpoints(c) == Some(ConnectionEndpoints { source_port: ep.source_port, target_port: i })
                &&& old(self).validation(o, ep.target_port) is Ok ==> exists|c: EntityId|
                    #[trigger] final(self).endpoints(c) == Some(ConnectionEndpoints { source_port: o, target_port: ep.target_port })
                &&& final(self).endpoints(conn_id) is None
                &&& forall|c: EntityId|
                    #[trigger] final(self).endpoints(c) is Some ==> final(self).endpoints(c) == old(self).endpoints(c)
                        || final(self).endpoints(c) == Some(ConnectionEndpoints { source_port: ep.source_port, target_port: i })
                        || final(self).endpoints(c) == Some(ConnectionEndpoints { source_port: o, target_port: ep.target_port })
            },
    {
        let ep = match self.world_ref().get::<ConnectionEndpoints>(conn_id) {
            Some(e) => *e,
            None => {
                return None;
            },
        };
        let st = match self.world_ref().get::<PortSocketType>(ep.source_port) {
            Some(s) => s.0,
            None => {
                return None;
            },
        };
        let tt = match self.world_ref().get::<PortSocketType>(ep.target_port) {
            Some(s) => s.0,
            None => {
                return None;
            },
        };
        let ports = self.node_ports(node_id);
        let n_in = self.first_fitting_port(ports, PortDirection::Input, st);
        let n_out = self.first_fitting_port(ports, PortDirection::Output, tt);
        let (i, o) = match (n_in, n_out) {
            (Some(i), Some(o)) => (i, o),
            _ => {
                return None;
            },
        };
        let ghost g0 = *self;
        proof {
            assert(g0.conns_of(ep.source_port).contains(conn_id));
            lemma_first_fitting_in(g0, g0.ports_of(node_id), PortDirection::Input, st, 0);
            lemma_first_fitting_in(g0, g0.ports_of(node_id), PortDirection::Output, tt, 0);
            assert(g0.ports_of(node_id).contains(i));
            assert(g0.ports_of(node_id).contains(o));
        }
        self.disconnect(conn_id);
        let ghost g1 = *self;
        proof {
            assert(same_port_data(g0, g1, ep.source_port));
            assert(same_port_data(g0, g1, i));
            assert(same_port_data(g0, g1, o));
            assert(same_port_data(g0, g1, ep.target_port));
            lemma_validation_same(g0, g1, ep.source_port, i);
        }
        let r1 = self.connect(ep.source_port, i);
        let ghost g2 = *self;
        proof {
            let ks = set![crate::store::ComponentKind::ConnectionEndpoints];
            assert forall|p: EntityId| g1.wd().alive(p) && g1.endpoints(p) is None implies same_port_data(g1, g2, p) by {
                crate::commands::remove::lemma_connect_spares(g1, g2, ep.source_port, i, r1);
                g2.wd().lemma_comp_kept::<super::port::PortOwner>(&g1.wd(), ks, p);
                g2.wd().lemma_comp_kept::<PortDirection>(&g1.wd(), ks, p);
                g2.wd().lemma_comp_kept::<PortSocketType>(&g1.wd(), ks, p);
            }
            assert(g1.dir_of(o) is Some);
            assert(g1.dir_of(ep.target_port) is Some);
            lemma_validation_same(g1, g2, o, ep.target_port);
        }
        let r2 = self.connect(o, ep.target_port);
        proof {
            match (r1, g0.validation(ep.source_port, i)) {
                (Ok(c1), Ok(_)) => {
                    if i != ep.target_port {
                        assert(g2.endpoints(c1) == Some(ConnectionEndpoints { source_port: ep.source_port, target_port: i }));
                        if g2.conns_of(ep.target_port).contains(c1) {
                            assert(false);
                        }
                        assert(self.endpoints(c1) == Some(ConnectionEndpoints { source_port: ep.source_port, target_port: i }));
                    }
                },
                _ => {},
            }
            match r2 {
                Ok(c2) => {
                    assert(self.endpoints(c2) == Some(ConnectionEndpoints { source_port: o, target_port: ep.target_port }));
                },
                Err(_) => {},
            }
            crate::store::entity::lemma_evolves_trans(g1.wd().allocator_spec(), g2.wd().allocator_spec(), self.wd().allocator_spec());
            crate::store::entity::lemma_stale_not_alive(self.wd().allocator_spec(), conn_id);
            assert(g0.dir_of(ep.source_port) == Some(PortDirection::Output));
            assert forall|c: EntityId| #[trigger] g1.endpoints(c) is Some implies g1.endpoints(c) == g0.endpoints(c) by {
                assert(c != conn_id);
            }
            assert forall|c: EntityId| #[trigger] g2.endpoints(c) is Some implies g2.endpoints(c) == g1.endpoints(c)
                || g2.endpoints(c) == Some(ConnectionEndpoints { source_port: ep.source_port, target_port: i }) by {
                match r1 {
                    Ok(c1) => {
                        if c != c1 {
                            let inp = g1.validation(ep.source_port, i)->Ok_0.1;
                            if g1.conns_of(inp).contains(c) {
                                assert(!g2.wd().alive(c));
                            }
                        }
                    },
                    Err(_) => {},
                }
            }
            assert forall|c: EntityId| #[trigger] self.endpoints(c) is Some implies self.endpoints(c) == g2.endpoints(c)
                || self.endpoints(c) == Some(ConnectionEndpoints { source_port: o, target_port: ep.target_port }) by {
                match r2 {
                    Ok(c2) => {
                        if c != c2 {
                            let inp = g2.validation(o, ep.target_port)->Ok_0.1;
                            if g2.conns_of(inp).contains(c) {
                                assert(!self.wd().alive(c));
                            }
                        }
                    },
                    Err(_) => {},
                }
            }
        }
        Some((i, o))
    }

    /// Remove node `node_id` and reconnect around it: the bridges that
    /// `bridge_connections` finds before the node goes are connected after
    /// it is removed, while the graph has room. Returns the bridges.
    pub fn remove_node_bridged(&mut self, node_id: EntityId) -> (r: Vec<(EntityId, EntityId)>)
        requires
            old(self).wf(),
        ensures
            final(self).wf(),
            r@ == node_bridges(*old(self), node_id),
            !old(self).can_own_ports(node_id) ==> *final(self) == *old(self),
            old(self).can_own_ports(node_id) ==> !final(self).pbn().contains_key(node_id),
            old(self).can_own_ports(node_id) ==> !final(self).wd().alive(node_id),
            old(self).can_own_ports(node_id) ==> forall|c: EntityId| !#[trigger] final(self).touches_node(node_id, c),
            old(self).can_own_ports(node_id) ==> forall|c: EntityId|
                old(self).endpoints(c) matches Some(ep) && !old(self).touches_node(node_id, c) && !bridge_end(r@, ep.target_port)
                    ==> #[trigger] final(self).endpoints(c) == old(self).endpoints(c),
            old(self).can_own_ports(node_id) && old(self).wd().room() >= r@.len() ==> forall|k: int|
                0 <= k < r@.len() && old(self).validation(r@[k].0, r@[k].1) is Ok && old(self).owner_of(
                    #[trigger] r@[k].0,
                ) != Some(node_id) && old(self).owner_of(r@[k].1) != Some(node_id) ==> exists|c: EntityId|
                    final(self).endpoints(c) == Some(ConnectionEndpoints { source_port: r@[k].0, target_port: r@[k].1 }),
            forall|c: EntityId|
                #[trigger] final(self).endpoints(c) matches Some(ep) ==> old(self).endpoints(c) == final(self).endpoints(c)
                    || exists|a: int| 0 <= a < r@.len() && r@[a] == (ep.source_port, ep.target_port),
    {
        let bridges = self.bridge_connections(node_id);
        if !self.accepts_ports(node_id) {
            proof {
                assert(self.ports_of(node_id).len() == 0) by {
                    if self.ports_of(node_id).len() > 0 {
                        assert(self.ports_of(node_id).contains(self.ports_of(node_id)[0]));
                    }
                }
                assert(flow_ends(*self, self.ports_of(node_id), PortDirection::Input, 0).len() == 0);
            }
            return bridges;
        }
        let ghost g0 = *self;
        proof {
            let ps = g0.ports_of(node_id);
            let ups = flow_ends(g0, ps, PortDirection::Input, ps.len());
            let downs = flow_ends(g0, ps, PortDirection::Output, ps.len());
            lemma_flow_ends_dirs(g0, ps, PortDirection::Input, ps.len());
            lemma_flow_ends_dirs(g0, ps, PortDirection::Output, ps.len());
            lemma_bridges_props(g0, ups, downs, ups.len());
        }
        self.remove_node(node_id);
        let ghost g1 = *self;
        proof {
            assert forall|c: EntityId|
                g0.endpoints(c) matches Some(ep) && !g0.touches_node(node_id, c) && !bridge_end(bridges@, ep.target_port)
                    implies #[trigger] self.endpoints(c) == g0.endpoints(c) by {
                assert(c != node_id);
                if g0.ports_of(node_id).contains(c) {
                    assert(g0.owner_of(c) == Some(node_id));
                }
                assert(self.wd().alive(c));
                self.wd().lemma_comp_kept::<ConnectionEndpoints>(&g0.wd(), set![crate::store::ComponentKind::FrameMembers], c);
            }
            assert forall|p: EntityId| g0.owner_of(p) == Some(node_id) implies #[trigger] self.owner_of(p) is None by {
                assert(g0.ports_of(node_id).contains(p));
                assert(!self.wd().alive(p));
            }
            assert forall|c: EntityId| #[trigger] self.endpoints(c) is Some implies g0.endpoints(c) == self.endpoints(c) by {
                if c == node_id || g0.ports_of(node_id).contains(c) || g0.touches_node(node_id, c) {
                    assert(!self.wd().alive(c));
                }
                self.wd().lemma_comp_kept::<ConnectionEndpoints>(&g0.wd(), set![crate::store::ComponentKind::FrameMembers], c);
            }
        }
        let mut k: usize = 0;
        while k < bridges.len()
            invariant
                self.wf(),
                g0.wf(),
                g0.can_own_ports(node_id),
                bridges@ == node_bridges(g0, node_id),
                k <= bridges@.len(),
                !self.pbn().contains_key(node_id),
                self.wd().allocator_spec().is_stale(node_id),
                forall|c: EntityId|
                    g0.endpoints(c) matches Some(ep) && !g0.touches_node(node_id, c) && !bridge_end(bridges@, ep.target_port)
                        ==> #[trigger] self.endpoints(c) == g0.endpoints(c),
                g0.wd().room() >= bridges@.len() ==> self.wd().room() >= g0.wd().room() - k,
                forall|a: int|
                    0 <= a < bridges@.len() ==> g0.owner_of((#[trigger] bridges@[a]).0) is Some && g0.dir_of(bridges@[a].0)
                        == Some(PortDirection::Output) && g0.owner_of(bridges@[a].1) is Some && g0.dir_of(bridges@[a].1)
                        == Some(PortDirection::Input),
                bridges@.map_values(|b: (EntityId, EntityId)| b.1).no_duplicates(),
                forall|a: int|
                    0 <= a < bridges@.len() && g0.owner_of(#[trigger] bridges@[a].0) != Some(node_id) && g0.owner_of(
                        bridges@[a].1,
                    ) != Some(node_id) ==> same_port_data(g0, *self, bridges@[a].0) && same_port_data(
                        g0,
                        *self,
                        bridges@[a].1,
                    ) && self.wd().alive(bridges@[a].0) && self.wd().alive(bridges@[a].1),
                g0.wd().room() >= bridges@.len() ==> forall|a: int|
                    0 <= a < k && g0.validation(bridges@[a].0, bridges@[a].1) is Ok && g0.owner_of(
                        #[trigger] bridges@[a].0,
                    ) != Some(node_id) && g0.owner_of(bridges@[a].1) != Some(node_id) ==> exists|c: EntityId|
                        self.endpoints(c) == Some(
                            ConnectionEndpoints { source_port: bridges@[a].0, target_port: bridges@[a].1 },
                        ),
                forall|c: EntityId|
                    #[trigger] self.endpoints(c) matches Some(ep) ==> g0.endpoints(c) == self.endpoints(c)
                        || exists|a: int| 0 <= a < k && bridges@[a] == (ep.source_port, ep.target_port),
                forall|p: EntityId| g0.owner_of(p) == Some(node_id) ==> #[trigger] self.owner_of(p) is None,
            decreases bridges.len() - k,
        {
            let (u, d) = bridges[k];
            if self.room_left() > 0 {
                let ghost gk = *self;
                let rc = self.connect(u, d);
                proof {
                    assert forall|c: EntityId|
                        g0.endpoints(c) matches Some(ep) && !g0.touches_node(node_id, c) && !bridge_end(bridges@, ep.target_port)
                            implies #[trigger] self.endpoints(c) == g0.endpoints(c) by {
                        let ep = g0.endpoints(c)->0;
                        assert(gk.endpoints(c) == g0.endpoints(c));
                        match gk.validation(u, d) {
                            Ok((o, i)) => {
                                assert(i == u || i == d);
                                assert(bridges@[k as int] == (u, d));
                                assert(ep.target_port != u && ep.target_port != d);
                                assert(gk.dir_of(ep.source_port) == Some(PortDirection::Output));
                                assert(gk.dir_of(i) == Some(PortDirection::Input));
                                assert(!gk.conns_of(i).contains(c));
                                assert(gk.wd().alive(c));
                            },
                            Err(_) => {},
                        }
                    }
                    crate::store::entity::lemma_stale_not_alive(self.wd().allocator_spec(), node_id);
                }
                proof {
                    let ks = set![crate::store::ComponentKind::ConnectionEndpoints];
                    crate::commands::remove::lemma_connect_spares(gk, *self, u, d, rc);
                    assert forall|a: int|
                        0 <= a < bridges@.len() && g0.owner_of(#[trigger] bridges@[a].0) != Some(node_id) && g0.owner_of(
                            bridges@[a].1,
                        ) != Some(node_id) implies same_port_data(g0, *self, bridges@[a].0) && same_port_data(
                        g0,
                        *self,
                        bridges@[a].1,
                    ) && self.wd().alive(bridges@[a].0) && self.wd().alive(bridges@[a].1) by {
                        let x = bridges@[a].0;
                        let y = bridges@[a].1;
                        assert(gk.endpoints(x) is None);
                        assert(gk.endpoints(y) is None);
                        self.wd().lemma_comp_kept::<super::port::PortOwner>(&gk.wd(), ks, x);
                        self.wd().lemma_comp_kept::<PortDirection>(&gk.wd(), ks, x);
                        self.wd().lemma_comp_kept::<PortSocketType>(&gk.wd(), ks, x);
                        self.wd().lemma_comp_kept::<super::port::PortOwner>(&gk.wd(), ks, y);
                        self.wd().lemma_comp_kept::<PortDirection>(&gk.wd(), ks, y);
                        self.wd().lemma_comp_kept::<PortSocketType>(&gk.wd(), ks, y);
                    }
                    if g0.wd().room() >= bridges@.len() {
                        assert forall|a: int|
                            0 <= a < k + 1 && g0.validation(bridges@[a].0, bridges@[a].1) is Ok && g0.owner_of(
                                #[trigger] bridges@[a].0,
                            ) != Some(node_id) && g0.owner_of(bridges@[a].1) != Some(node_id) implies exists|c: EntityId|
                            self.endpoints(c) == Some(
                                ConnectionEndpoints { source_port: bridges@[a].0, target_port: bridges@[a].1 },
                            ) by {
                            if a < k {
                                let c = choose|c: EntityId| gk.endpoints(c) == Some(
                                    ConnectionEndpoints { source_port: bridges@[a].0, target_port: bridges@[a].1 },
                                );
                                assert(bridges@.map_values(|b: (EntityId, EntityId)| b.1)[a] == bridges@[a].1);
                                assert(bridges@.map_values(|b: (EntityId, EntityId)| b.1)[k as int] == d);
                                if gk.conns_of(d).contains(c) {
                                    assert(false);
                                }
                                assert(self.endpoints(c) == gk.endpoints(c));
                            } else {
                                lemma_validation_same(g0, gk, u, d);
                                match rc {
                                    Ok(c) => {
                                        assert(self.endpoints(c) == Some(ConnectionEndpoints { source_port: u, target_port: d }));
                                    },
                                    Err(_) => {},
                                }
                            }
                        }
                    }
                }
                proof {
                    let ks = set![crate::store::ComponentKind::ConnectionEndpoints];
                    assert forall|p: EntityId| g0.owner_of(p) == Some(node_id) implies #[trigger] self.owner_of(p) is None by {
                        if self.owner_of(p) is Some {
                            assert(self.endpoints(p) is None);
                            if self.wd().alive(p) != gk.wd().alive(p) {
                                match rc {
                                    Ok(c) => {
                                        if p == c {
                                            assert(self.endpoints(c) is Some);
                                        }
                                    },
                                    Err(_) => {},
                                }
                            }
                            self.wd().lemma_comp_kept::<super::port::PortOwner>(&gk.wd(), ks, p);
                            assert(gk.owner_of(p) is None);
                        }
                    }
                    assert forall|c: EntityId|
                        #[trigger] self.endpoints(c) is Some implies g0.endpoints(c) == self.endpoints(c)
                            || exists|a: int| 0 <= a < k + 1 && bridges@[a] == (self.endpoints(c)->0.source_port, self.endpoints(c)->0.target_port) by {
                        let ep = self.endpoints(c)->0;
                        match rc {
                            Ok(nc) => {
                                if c == nc {
                                    let (o, i) = gk.validation(u, d)->Ok_0;
                                    assert(gk.owner_of(o) is Some && gk.owner_of(i) is Some);
                                    assert(o == u || o == d);
                                    assert(i == u || i == d);
                                    assert(g0.owner_of(u) != Some(node_id));
                                    assert(g0.owner_of(d) != Some(node_id));
                                    assert(bridges@[k as int] == (u, d));
                                    lemma_validation_same(g0, gk, u, d);
                                    assert(o == u && i == d);
                                } else {
                                    let replaced = gk.conns_of(gk.validation(u, d)->Ok_0.1);
                                    if replaced.contains(c) {
                                        assert(!self.wd().alive(c));
                                    }
                                    assert(self.endpoints(c) == gk.endpoints(c));
                                }
                            },
                            Err(_) => {},
                        }
                    }
                }
            }
            k = k + 1;
        }
        proof {
            crate::store::entity::lemma_stale_not_alive(self.wd().allocator_spec(), node_id);
            assert forall|c: EntityId| !#[trigger] self.touches_node(node_id, c) by {
                if self.touches_node(node_id, c) {
                    let ep = self.endpoints(c)->0;
                    if self.owner_of(ep.source_port) == Some(node_id) {
                        assert(self.can_own_ports(node_id));
                    } else {
                        assert(self.owner_of(ep.target_port) == Some(node_id));
                        assert(self.can_own_ports(node_id));
                    }
                }
            }
        }
        bridges
    }

    /// Pairs of (upstream port, downstream port) that carry a flow through
    /// node `node_id`, for reconnecting around it when it is deleted: each
    /// port that feeds one of its inputs, in order, is paired with the
    /// first port fed by one of its outputs that is not paired yet and
    /// whose type it can feed.
    pub fn bridge_connections(&self, node_id: EntityId) -> (r: Vec<(EntityId, EntityId)>)
        requires
            self.wf(),
        ensures
            r@ == node_bridges(*self, node_id),
    {
        let ports = self.node_ports(node_id);
        let ups = self.flow_ends_of(ports, PortDirection::Input);
        let downs = self.flow_ends_of(ports, PortDirection::Output);
        let mut r: Vec<(EntityId, EntityId)> = Vec::new();
        let mut used: Vec<EntityId> = Vec::new();
        let mut i: usize = 0;
        while i < ups.len()
            invariant
                self.wf(),
                i <= ups@.len(),
                r@ == bridges(*self, ups@, downs@, i as nat),
                used@ == r@.map_values(|b: (EntityId, EntityId)| b.1),
            decreases ups.len() - i,
        {
            let up = ups[i];
            match self.world_ref().get::<PortSocketType>(up) {
                Some(ut) => {
                    let ut = ut.0;
                    let mut j: usize = 0;
                    let mut found: Option<EntityId> = None;
                    while j < downs.len() && found.is_none()
                        invariant
                            self.wf(),
                            j <= downs@.len(),
                            found is None ==> pick_downstream(*self, ut, downs@, used@, 0) == pick_downstream(
                                *self,
                                ut,
                                downs@,
                                used@,
                                j as int,
                            ),
                            found is Some ==> pick_downstream(*self, ut, downs@, used@, 0) == found,
                        decreases downs.len() - j,
                    {
                        let d = downs[j];
                        if !crate::store::component::contains_id(&used, d) {
                            match self.world_ref().get::<PortSocketType>(d) {
                                Some(dt) => {
                                    if ut.is_compatible_with(&dt.0) {
                                        found = Some(d);
                                    }
                                },
                                None => {},
                            }
                        }
                        j = j + 1;
                    }
                    match found {
                        Some(d) => {
                            r.push((up, d));
                            used.push(d);
                            proof {
                                assert(used@ =~= r@.map_values(|b: (EntityId, EntityId)| b.1));
                            }
                        },
                        None => {},
                    }
                },
                None => {},
            }
            i = i + 1;
        }
        r
    }
}

} // verus!
