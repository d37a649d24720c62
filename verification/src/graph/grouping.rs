use vstd::prelude::*;
use crate::store::EntityId;
use crate::types::socket_type::SocketType;
use super::NodeGraph;
use super::group::{GroupIOBinding, SubgraphRoot};
use super::node::{NodeHeader, NodePosition, NodeTypeId, CustomBodyHeight};
use super::group::{GroupIOKind, GroupIOLabel};
use vstd::string::StringExecFns;
use crate::store::ComponentKind;
use super::port::{PortOwner, PortSocketType, PortLabel, PortDirection};
use super::connection::ConnectionEndpoints;
use super::edits::{same_port_data, lemma_validation_same};
use super::keeps::{
    keeps_nodes, keeps_nodes_but, lemma_connect_keeps_nodes, lemma_set_header_keeps_but, lemma_add_node_keeps, lemma_add_port_keeps_but, lemma_keeps_but_trans, lemma_keeps_join, lemma_keeps_weaken,
    lemma_set_io_kind_keeps_but, lemma_set_other_keeps,
};

verus! {

/// Total number of connections attached to the ports in `ports`.
pub open spec fn conn_total<F: Copy>(g: NodeGraph<F>, ports: Seq<EntityId>) -> nat
    decreases ports.len(),
{
    if ports.len() == 0 {
        0
    } else {
        conn_total(g, ports.drop_last()) + g.conns_of(ports.last()).len()
    }
}

/// Total number of connections attached to the ports of the nodes in
/// `ids`, counted once per port and node occurrence.
pub open spec fn link_total<F: Copy>(g: NodeGraph<F>, ids: Seq<EntityId>) -> nat
    decreases ids.len(),
{
    if ids.len() == 0 {
        0
    } else {
        link_total(g, ids.drop_last()) + conn_total(g, g.ports_of(ids.last()))
    }
}

/// Number of nodes in `ids` plus the number of their ports.
pub open spec fn port_total<F: Copy>(g: NodeGraph<F>, ids: Seq<EntityId>) -> nat
    decreases ids.len(),
{
    if ids.len() == 0 {
        0
    } else {
        port_total(g, ids.drop_last()) + 1 + g.ports_of(ids.last()).len()
    }
}

proof fn lemma_conn_total_step<F: Copy>(g: NodeGraph<F>, ports: Seq<EntityId>, j: int)
    requires
        0 <= j < ports.len(),
    ensures
        conn_total(g, ports.subrange(0, j + 1)) == conn_total(g, ports.subrange(0, j)) + g.conns_of(ports[j]).len(),
{
    assert(ports.subrange(0, j + 1).drop_last() =~= ports.subrange(0, j));
}

proof fn lemma_link_total_step<F: Copy>(g: NodeGraph<F>, ids: Seq<EntityId>, i: int)
    requires
        0 <= i < ids.len(),
    ensures
        link_total(g, ids.subrange(0, i + 1)) == link_total(g, ids.subrange(0, i)) + conn_total(g, g.ports_of(ids[i])),
{
    assert(ids.subrange(0, i + 1).drop_last() =~= ids.subrange(0, i));
}

proof fn lemma_port_total_step<F: Copy>(g: NodeGraph<F>, ids: Seq<EntityId>, i: int)
    requires
        0 <= i < ids.len(),
    ensures
        port_total(g, ids.subrange(0, i + 1)) == port_total(g, ids.subrange(0, i)) + 1 + g.ports_of(ids[i]).len(),
{
    assert(ids.subrange(0, i + 1).drop_last() =~= ids.subrange(0, i));
}

proof fn lemma_port_total_prefix<F: Copy>(g: NodeGraph<F>, ids: Seq<EntityId>, i: int)
    requires
        0 <= i <= ids.len(),
    ensures
        port_total(g, ids.subrange(0, i)) <= port_total(g, ids),
    decreases ids.len() - i,
{
    if i < ids.len() {
        lemma_port_total_step(g, ids, i);
        lemma_port_total_prefix(g, ids, i + 1);
    } else {
        assert(ids.subrange(0, i) =~= ids);
    }
}

/// The value paired with the last occurrence of key `k` in `pairs`.
pub(crate) fn last_match(pairs: &Vec<(EntityId, EntityId)>, k: EntityId) -> (r: Option<EntityId>)
    ensures
        match r {
            Some(v) => exists|i: int| 0 <= i < pairs@.len() && pairs@[i] == (k, v),
            None => forall|i: int| 0 <= i < pairs@.len() ==> pairs@[i].0 != k,
        },
{
    let mut i: usize = pairs.len();
    while i > 0
        invariant
            i <= pairs@.len(),
            forall|j: int| i <= j < pairs@.len() ==> pairs@[j].0 != k,
        decreases i,
    {
        i = i - 1;
        if pairs[i].0 == k {
            return Some(pairs[i].1);
        }
    }
    None
}

/// Whether the pair `(a, b)` occurs in `pairs`.
fn contains_pair(pairs: &Vec<(EntityId, EntityId)>, a: EntityId, b: EntityId) -> (r: bool)
    ensures
        r == pairs@.contains((a, b)),
{
    let mut i: usize = 0;
    while i < pairs.len()
        invariant
            i <= pairs@.len(),
            forall|j: int| 0 <= j < i ==> pairs@[j] != (a, b),
        decreases pairs.len() - i,
    {
        if pairs[i].0 == a && pairs[i].1 == b {
            return true;
        }
        i = i + 1;
    }
    false
}

/// Socket type of port `p`, `Float` where it has none.
pub open spec fn look_type<F: Copy>(g: NodeGraph<F>, p: EntityId) -> SocketType {
    match g.socket_of(p) {
        Some(t) => t,
        None => SocketType::Float,
    }
}

/// Label of port `p`, empty where it has none.
pub open spec fn look_label<F: Copy>(g: NodeGraph<F>, p: EntityId) -> Seq<char> {
    match g.wd().comp::<PortLabel>(p) {
        Some(l) => l.0@,
        None => Seq::empty(),
    }
}

/// Port `p` belongs to a node of `ids`.
pub open spec fn inside<F: Copy>(g: NodeGraph<F>, p: EntityId, ids: Seq<EntityId>) -> bool {
    g.owner_of(p) matches Some(o) && ids.contains(o)
}

/// Entity `e` of `g` is group node `gn`, one of its ports, or a connection
/// with an end on one of its ports.
pub open spec fn new_for_group<F: Copy>(g: NodeGraph<F>, gn: EntityId, e: EntityId) -> bool {
    ||| e == gn
    ||| g.ports_of(gn).contains(e)
    ||| (g.endpoints(e) matches Some(ep) && (g.ports_of(gn).contains(ep.source_port) || g.ports_of(gn).contains(
        ep.target_port,
    )))
}

/// Connecting a port of group node `gn` keeps every live entity either old
/// or new for the group.
proof fn lemma_new_wire_for_group<F: Copy>(
    g0: NodeGraph<F>,
    w0: NodeGraph<F>,
    w1: NodeGraph<F>,
    gn: EntityId,
    a: EntityId,
    b: EntityId,
    rc: Result<EntityId, super::ConnectionError>,
)
    requires
        w0.wf(),
        w0.ports_of(gn).contains(a) || w0.ports_of(gn).contains(b),
        w1.pbn() == w0.pbn(),
        forall|e: EntityId| #[trigger] w0.wd().alive(e) ==> g0.wd().alive(e) || new_for_group(w0, gn, e),
        match w0.validation(a, b) {
            Err(e) => rc == Err::<EntityId, super::ConnectionError>(e) && w1 == w0,
            Ok((out, inp)) => rc matches Ok(c) && {
                let replaced = w0.conns_of(inp);
                &&& w1.endpoints(c) == Some(ConnectionEndpoints { source_port: out, target_port: inp })
                &&& forall|e: EntityId|
                    e != c && !replaced.contains(e) ==> #[trigger] w1.wd().alive(e) == w0.wd().alive(e)
                &&& forall|e: EntityId|
                    e != c && !replaced.contains(e) ==> #[trigger] w1.endpoints(e) == w0.endpoints(e)
                &&& forall|e: EntityId| #[trigger] replaced.contains(e) ==> !w1.wd().alive(e)
            },
        },
    ensures
        forall|e: EntityId| #[trigger] w1.wd().alive(e) ==> g0.wd().alive(e) || new_for_group(w1, gn, e),
{
    assert(w1.ports_of(gn) == w0.ports_of(gn));
    assert forall|e: EntityId| #[trigger] w1.wd().alive(e) implies g0.wd().alive(e) || new_for_group(w1, gn, e) by {
        match w0.validation(a, b) {
            Ok((out, inp)) => {
                let c = rc->Ok_0;
                if e != c && !w0.conns_of(inp).contains(e) {
                    assert(w0.wd().alive(e));
                    assert(w1.endpoints(e) == w0.endpoints(e));
                }
            },
            Err(_) => {},
        }
    }
}

/// Port `p` is the outside port of one of the bindings `outs`.
pub open spec fn hits_external(outs: Seq<GroupIOBinding>, p: EntityId) -> bool {
    exists|a: int| 0 <= a < outs.len() && (#[trigger] outs[a]).external_port == p
}

/// Every connection of `g0` whose input end is no outside port of `outs`
/// is still in `g1`, with the same ends.
pub open spec fn keeps_links_but<F: Copy>(g0: NodeGraph<F>, g1: NodeGraph<F>, outs: Seq<GroupIOBinding>) -> bool {
    forall|c: EntityId|
        g0.endpoints(c) is Some && !hits_external(outs, g0.endpoints(c)->0.target_port) ==> #[trigger] g1.endpoints(c)
            == g0.endpoints(c)
}

/// Connections sorted so far: (outside port, inside port) of those that
/// enter the selection, the same of those that leave it, and the
/// (source, target) pairs of those within it.
pub type CutSoFar = (Seq<(EntityId, EntityId)>, Seq<(EntityId, EntityId)>, Seq<(EntityId, EntityId)>);

/// `acc` after sorting connection `c` for the selection `ids`; a pair
/// within the selection is kept once.
pub open spec fn cut_step<F: Copy>(g: NodeGraph<F>, acc: CutSoFar, c: EntityId, ids: Seq<EntityId>) -> CutSoFar {
    match g.endpoints(c) {
        Some(ep) => {
            let si = inside(g, ep.source_port, ids);
            let ti = inside(g, ep.target_port, ids);
            if si && ti {
                if acc.2.contains((ep.source_port, ep.target_port)) {
                    acc
                } else {
                    (acc.0, acc.1, acc.2.push((ep.source_port, ep.target_port)))
                }
            } else if si {
                (acc.0, acc.1.push((ep.target_port, ep.source_port)), acc.2)
            } else if ti {
                (acc.0.push((ep.source_port, ep.target_port)), acc.1, acc.2)
            } else {
                acc
            }
        },
        None => acc,
    }
}

/// `acc` after sorting the first `k` connections of `cs`.
pub open spec fn cut_conns<F: Copy>(g: NodeGraph<F>, acc: CutSoFar, cs: Seq<EntityId>, ids: Seq<EntityId>, k: nat) -> CutSoFar
    decreases k,
{
    if k == 0 || k > cs.len() {
        acc
    } else {
        cut_step(g, cut_conns(g, acc, cs, ids, (k - 1) as nat), cs[k - 1], ids)
    }
}

/// `acc` after sorting the connections of the first `j` ports of `ps`.
pub open spec fn cut_ports<F: Copy>(g: NodeGraph<F>, acc: CutSoFar, ps: Seq<EntityId>, ids: Seq<EntityId>, j: nat) -> CutSoFar
    decreases j,
{
    if j == 0 || j > ps.len() {
        acc
    } else {
        let p = ps[j - 1];
        cut_conns(g, cut_ports(g, acc, ps, ids, (j - 1) as nat), g.conns_of(p), ids, g.conns_of(p).len())
    }
}

/// The connections on the ports of the first `i` nodes of `ids`, sorted
/// for the selection `ids`, in the order they are met.
pub open spec fn cut_nodes<F: Copy>(g: NodeGraph<F>, ids: Seq<EntityId>, i: nat) -> CutSoFar
    decreases i,
{
    if i == 0 || i > ids.len() {
        (Seq::empty(), Seq::empty(), Seq::empty())
    } else {
        let n = ids[i - 1];
        cut_ports(g, cut_nodes(g, ids, (i - 1) as nat), g.ports_of(n), ids, g.ports_of(n).len())
    }
}

/// Every entering or leaving pair sorted so far joins an outside port to
/// an inside port, both with owners.
pub open spec fn cut_owned<F: Copy>(g: NodeGraph<F>, acc: CutSoFar, ids: Seq<EntityId>) -> bool {
    &&& forall|k: int|
        0 <= k < acc.0.len() ==> g.owner_of((#[trigger] acc.0[k]).0) is Some && g.owner_of(acc.0[k].1) is Some
            && !inside(g, acc.0[k].0, ids) && inside(g, acc.0[k].1, ids) && g.dir_of(acc.0[k].1) == Some(
            PortDirection::Input,
        )
    &&& forall|k: int|
        0 <= k < acc.1.len() ==> g.owner_of((#[trigger] acc.1[k]).0) is Some && g.owner_of(acc.1[k].1) is Some
            && !inside(g, acc.1[k].0, ids) && inside(g, acc.1[k].1, ids) && g.dir_of(acc.1[k].1) == Some(
            PortDirection::Output,
        )
    &&& forall|k: int|
        0 <= k < acc.2.len() ==> inside(g, (#[trigger] acc.2[k]).0, ids) && inside(g, acc.2[k].1, ids) && g.dir_of(acc.2[k].0)
            == Some(PortDirection::Output) && g.dir_of(acc.2[k].1) == Some(PortDirection::Input)
}

proof fn lemma_cut_step_owned<F: Copy>(g: NodeGraph<F>, acc: CutSoFar, c: EntityId, ids: Seq<EntityId>)
    requires
        g.wf(),
        cut_owned(g, acc, ids),
    ensures
        cut_owned(g, cut_step(g, acc, c, ids), ids),
{
    match g.endpoints(c) {
        Some(ep) => {
            assert(g.owner_of(ep.source_port) is Some && g.owner_of(ep.target_port) is Some);
            let r = cut_step(g, acc, c, ids);
            assert forall|k: int| 0 <= k < r.0.len() implies g.owner_of((#[trigger] r.0[k]).0) is Some && g.owner_of(r.0[k].1) is Some
                && !inside(g, r.0[k].0, ids) && inside(g, r.0[k].1, ids) && g.dir_of(r.0[k].1) == Some(PortDirection::Input) by {
                if k < acc.0.len() {
                    assert(r.0[k] == acc.0[k]);
                }
            }
            assert forall|k: int| 0 <= k < r.1.len() implies g.owner_of((#[trigger] r.1[k]).0) is Some && g.owner_of(r.1[k].1) is Some
                && !inside(g, r.1[k].0, ids) && inside(g, r.1[k].1, ids) && g.dir_of(r.1[k].1) == Some(PortDirection::Output) by {
                if k < acc.1.len() {
                    assert(r.1[k] == acc.1[k]);
                }
            }
        },
        None => {},
    }
}

proof fn lemma_cut_conns_owned<F: Copy>(g: NodeGraph<F>, acc: CutSoFar, cs: Seq<EntityId>, ids: Seq<EntityId>, k: nat)
    requires
        g.wf(),
        cut_owned(g, acc, ids),
    ensures
        cut_owned(g, cut_conns(g, acc, cs, ids, k), ids),
    decreases k,
{
    if k > 0 && k <= cs.len() {
        lemma_cut_conns_owned(g, acc, cs, ids, (k - 1) as nat);
        lemma_cut_step_owned(g, cut_conns(g, acc, cs, ids, (k - 1) as nat), cs[k - 1], ids);
    }
}

proof fn lemma_cut_ports_owned<F: Copy>(g: NodeGraph<F>, acc: CutSoFar, ps: Seq<EntityId>, ids: Seq<EntityId>, j: nat)
    requires
        g.wf(),
        cut_owned(g, acc, ids),
    ensures
        cut_owned(g, cut_ports(g, acc, ps, ids, j), ids),
    decreases j,
{
    if j > 0 && j <= ps.len() {
        lemma_cut_ports_owned(g, acc, ps, ids, (j - 1) as nat);
        let p = ps[j - 1];
        lemma_cut_conns_owned(g, cut_ports(g, acc, ps, ids, (j - 1) as nat), g.conns_of(p), ids, g.conns_of(p).len());
    }
}

proof fn lemma_cut_nodes_owned<F: Copy>(g: NodeGraph<F>, ids: Seq<EntityId>, i: nat)
    requires
        g.wf(),
    ensures
        cut_owned(g, cut_nodes(g, ids, i), ids),
    decreases i,
{
    if i > 0 && i <= ids.len() {
        lemma_cut_nodes_owned(g, ids, (i - 1) as nat);
        let n = ids[i - 1];
        lemma_cut_ports_owned(g, cut_nodes(g, ids, (i - 1) as nat), g.ports_of(n), ids, g.ports_of(n).len());
    }
}

/// The (outside port, inside port) pairs of bindings.
pub open spec fn binding_pairs(bs: Seq<GroupIOBinding>) -> Seq<(EntityId, EntityId)> {
    bs.map_values(|b: GroupIOBinding| (b.external_port, b.internal_port))
}

/// Each binding of `bs` carries the socket type and label of its inside
/// port.
pub open spec fn bindings_look_inside<F: Copy>(g: NodeGraph<F>, bs: Seq<GroupIOBinding>) -> bool {
    forall|k: int|
        0 <= k < bs.len() ==> (#[trigger] bs[k]).socket_type == look_type(g, bs[k].internal_port) && bs[k].label@
            == look_label(g, bs[k].internal_port)
}

/// Port `p` of `g` belongs to group node `n`, has direction `dir`, and the
/// socket type and label of binding `b`.
pub open spec fn group_port<F: Copy>(g: NodeGraph<F>, p: EntityId, n: EntityId, dir: PortDirection, b: GroupIOBinding) -> bool {
    &&& g.owner_of(p) == Some(n)
    &&& g.dir_of(p) == Some(dir)
    &&& g.socket_of(p) == Some(b.socket_type)
    &&& g.wd().comp::<PortLabel>(p) matches Some(l) && l.0@ == b.label@
}

/// The ports `ins` and `outs` of group node `n` in `g` were made, in
/// order, from the bindings `inputs` and `outputs`.
pub open spec fn group_ports_made<F: Copy>(
    g: NodeGraph<F>,
    n: EntityId,
    ins: Seq<EntityId>,
    outs: Seq<EntityId>,
    inputs: Seq<GroupIOBinding>,
    outputs: Seq<GroupIOBinding>,
) -> bool {
    &&& ins.len() == inputs.len()
    &&& outs.len() == outputs.len()
    &&& forall|k: int| 0 <= k < ins.len() ==> group_port(g, #[trigger] ins[k], n, PortDirection::Input, inputs[k])
    &&& forall|k: int| 0 <= k < outs.len() ==> group_port(g, #[trigger] outs[k], n, PortDirection::Output, outputs[k])
}

/// Where outside port `ext` and group input port `p` can be connected,
/// they are.
pub open spec fn wired_in<F: Copy>(g: NodeGraph<F>, ext: EntityId, p: EntityId) -> bool {
    g.validation(ext, p) matches Ok((o, i)) ==> exists|c: EntityId|
        #[trigger] g.endpoints(c) == Some(ConnectionEndpoints { source_port: o, target_port: i })
}

/// Where group output port `p` (for binding `k` of `outputs`) and its
/// outside port can be connected, they are, unless one of the bindings
/// after it, up to `upto`, has the same outside port.
pub open spec fn wired_out<F: Copy>(g: NodeGraph<F>, p: EntityId, outputs: Seq<GroupIOBinding>, k: int, upto: int) -> bool {
    (forall|k2: int| k < k2 < upto ==> (#[trigger] outputs[k2]).external_port != outputs[k].external_port) ==> (
    g.validation(p, outputs[k].external_port) matches Ok((o, i)) ==> exists|c: EntityId|
        #[trigger] g.endpoints(c) == Some(ConnectionEndpoints { source_port: o, target_port: i }))
}

/// The group node's ports are wired to the outside ports of their
/// bindings.
pub open spec fn group_wired<F: Copy>(
    g: NodeGraph<F>,
    ins: Seq<EntityId>,
    outs: Seq<EntityId>,
    inputs: Seq<GroupIOBinding>,
    outputs: Seq<GroupIOBinding>,
) -> bool {
    &&& forall|k: int| 0 <= k < ins.len() ==> wired_in(g, inputs[k].external_port, #[trigger] ins[k])
    &&& forall|k: int| 0 <= k < outs.len() ==> wired_out(g, #[trigger] outs[k], outputs, k, outputs.len() as int)
}

/// A connection of `w0` that does not end at the input port of a `connect`
/// call from `w0` to `g1` keeps its endpoints.
proof fn lemma_link_survives<F: Copy>(
    w0: NodeGraph<F>,
    g1: NodeGraph<F>,
    a: EntityId,
    b: EntityId,
    rc: Result<EntityId, super::ConnectionError>,
    c0: EntityId,
)
    requires
        w0.wf(),
        match w0.validation(a, b) {
            Err(e) => rc == Err::<EntityId, super::ConnectionError>(e) && g1 == w0,
            Ok((out, inp)) => rc matches Ok(c) && {
                let replaced = w0.conns_of(inp);
                &&& !w0.wd().alive(c)
                &&& forall|e: EntityId|
                    e != c && !replaced.contains(e) ==> #[trigger] g1.endpoints(e) == w0.endpoints(e)
            },
        },
        w0.endpoints(c0) matches Some(ep) && match w0.validation(a, b) {
            Ok((out, inp)) => ep.source_port != inp && ep.target_port != inp,
            Err(_) => true,
        },
    ensures
        g1.endpoints(c0) == w0.endpoints(c0),
{
    match w0.validation(a, b) {
        Ok((out, inp)) => {
            assert(w0.wd().alive(c0));
            if w0.conns_of(inp).contains(c0) {
                assert(false);
            }
        },
        Err(_) => {},
    }
}

/// Group node `n` of `g` has, in order, an input port for each connection
/// that entered the selection and an output port for each that left it (as
/// sorted in `cut`), each with the socket type and label that the inside
/// port had in `g0`, and each wired to its outside port where the two can
/// be connected (an output only where no later leaving connection has the
/// same outside port).
pub open spec fn grouped_ports<F: Copy>(g0: NodeGraph<F>, g: NodeGraph<F>, n: EntityId, cut: CutSoFar) -> bool {
    let ps = g.ports_of(n);
    let ni = cut.0.len() as int;
    &&& ps.len() == cut.0.len() + cut.1.len()
    &&& forall|k: int|
        0 <= k < ni ==> {
            &&& g.owner_of(#[trigger] ps[k]) == Some(n)
            &&& g.dir_of(ps[k]) == Some(PortDirection::Input)
            &&& g.socket_of(ps[k]) == Some(look_type(g0, cut.0[k].1))
            &&& g.wd().comp::<PortLabel>(ps[k]) matches Some(l) && l.0@ == look_label(g0, cut.0[k].1)
            &&& wired_in(g, cut.0[k].0, ps[k])
        }
    &&& forall|k: int|
        ni <= k < ps.len() ==> {
            &&& g.owner_of(#[trigger] ps[k]) == Some(n)
            &&& g.dir_of(ps[k]) == Some(PortDirection::Output)
            &&& g.socket_of(ps[k]) == Some(look_type(g0, cut.1[k - ni].1))
            &&& g.wd().comp::<PortLabel>(ps[k]) matches Some(l) && l.0@ == look_label(g0, cut.1[k - ni].1)
            &&& (forall|k2: int| k - ni < k2 < cut.1.len() ==> (#[trigger] cut.1[k2]).0 != cut.1[k - ni].0) ==> (
            g.validation(ps[k], cut.1[k - ni].0) matches Ok((o, i)) ==> exists|c: EntityId|
                #[trigger] g.endpoints(c) == Some(ConnectionEndpoints { source_port: o, target_port: i }))
        }
}

/// The group node made by `add_group_node` in `ga` from bindings sorted in
/// `g0`, after the selection `ids` was removed (giving `g`), still has its
/// ports, their data and their wiring.
pub(crate) proof fn lemma_grouped_ports<F: Copy>(
    g0: NodeGraph<F>,
    ga: NodeGraph<F>,
    g: NodeGraph<F>,
    n: EntityId,
    ins: Seq<EntityId>,
    outs: Seq<EntityId>,
    inputs: Seq<GroupIOBinding>,
    outputs: Seq<GroupIOBinding>,
    ids: Seq<EntityId>,
    cut: CutSoFar,
)
    requires
        g0.wf(),
        ga.wf(),
        g.wf(),
        cut.0 == binding_pairs(inputs),
        cut.1 == binding_pairs(outputs),
        bindings_look_inside(g0, inputs),
        bindings_look_inside(g0, outputs),
        forall|k: int|
            0 <= k < inputs.len() ==> g0.owner_of((#[trigger] inputs[k]).external_port) is Some && !inside(
                g0,
                inputs[k].external_port,
                ids,
            ),
        forall|k: int|
            0 <= k < outputs.len() ==> g0.owner_of((#[trigger] outputs[k]).external_port) is Some && !inside(
                g0,
                outputs[k].external_port,
                ids,
            ),
        ga.ports_of(n) == ins + outs,
        group_ports_made(ga, n, ins, outs, inputs, outputs),
        group_wired(ga, ins, outs, inputs, outputs),
        forall|e: EntityId|
            g0.wd().alive(e) && g0.endpoints(e) is None ==> {
                &&& #[trigger] ga.wd().alive(e)
                &&& ga.endpoints(e) is None
                &&& same_port_data(g0, ga, e)
            },
        !ids.contains(n),
        forall|p: EntityId|
            ga.owner_of(p) matches Some(o) && !ids.contains(o) ==> {
                &&& #[trigger] g.wd().alive(p)
                &&& same_port_data(ga, g, p)
                &&& g.wd().comp::<PortLabel>(p) == ga.wd().comp::<PortLabel>(p)
            },
        forall|m: EntityId| !ids.contains(m) ==> #[trigger] g.ports_of(m) == ga.ports_of(m),
        forall|c: EntityId|
            ga.endpoints(c) matches Some(ep) && !inside(ga, ep.source_port, ids) && !inside(ga, ep.target_port, ids)
                ==> #[trigger] g.endpoints(c) == ga.endpoints(c),
    ensures
        grouped_ports(g0, g, n, cut),
{
    let ps = g.ports_of(n);
    let ni = inputs.len() as int;
    assert(ps == ins + outs);
    assert forall|k: int| 0 <= k < ni implies {
        &&& g.owner_of(#[trigger] ps[k]) == Some(n)
        &&& g.dir_of(ps[k]) == Some(PortDirection::Input)
        &&& g.socket_of(ps[k]) == Some(look_type(g0, cut.0[k].1))
        &&& g.wd().comp::<PortLabel>(ps[k]) matches Some(l) && l.0@ == look_label(g0, cut.0[k].1)
        &&& wired_in(g, cut.0[k].0, ps[k])
    } by {
        let p = ins[k];
        assert(ps[k] == p);
        assert(group_port(ga, p, n, PortDirection::Input, inputs[k]));
        assert(cut.0[k] == (inputs[k].external_port, inputs[k].internal_port));
        let x = inputs[k].external_port;
        assert(g0.wd().alive(x) && g0.endpoints(x) is None);
        assert(same_port_data(g0, ga, x));
        assert(same_port_data(ga, g, x));
        assert(same_port_data(ga, g, p));
        lemma_validation_same(ga, g, x, p);
        assert(wired_in(ga, x, p));
        match ga.validation(x, p) {
            Ok((o, i)) => {
                let c = choose|c: EntityId| #[trigger] ga.endpoints(c) == Some(ConnectionEndpoints { source_port: o, target_port: i });
                assert(!inside(ga, x, ids));
                assert(!inside(ga, p, ids));
                assert(g.endpoints(c) == ga.endpoints(c));
            },
            Err(_) => {},
        }
    }
    assert forall|k: int| ni <= k < ps.len() implies {
        &&& g.owner_of(#[trigger] ps[k]) == Some(n)
        &&& g.dir_of(ps[k]) == Some(PortDirection::Output)
        &&& g.socket_of(ps[k]) == Some(look_type(g0, cut.1[k - ni].1))
        &&& g.wd().comp::<PortLabel>(ps[k]) matches Some(l) && l.0@ == look_label(g0, cut.1[k - ni].1)
        &&& (forall|k2: int| k - ni < k2 < cut.1.len() ==> (#[trigger] cut.1[k2]).0 != cut.1[k - ni].0) ==> (
        g.validation(ps[k], cut.1[k - ni].0) matches Ok((o, i)) ==> exists|c: EntityId|
            #[trigger] g.endpoints(c) == Some(ConnectionEndpoints { source_port: o, target_port: i }))
    } by {
        let j = k - ni;
        let p = outs[j];
        assert(ps[k] == p);
        assert(group_port(ga, p, n, PortDirection::Output, outputs[j]));
        assert(cut.1[j] == (outputs[j].external_port, outputs[j].internal_port));
        let x = outputs[j].external_port;
        assert(g0.wd().alive(x) && g0.endpoints(x) is None);
        assert(same_port_data(g0, ga, x));
        assert(same_port_data(ga, g, x));
        assert(same_port_data(ga, g, p));
        lemma_validation_same(ga, g, p, x);
        if forall|k2: int| j < k2 < cut.1.len() ==> (#[trigger] cut.1[k2]).0 != cut.1[j].0 {
            assert forall|k2: int| j < k2 < outputs.len() implies (#[trigger] outputs[k2]).external_port != outputs[j].external_port by {
                assert(cut.1[k2] == (outputs[k2].external_port, outputs[k2].internal_port));
            }
            assert(wired_out(ga, p, outputs, j, outputs.len() as int));
            match ga.validation(p, x) {
                Ok((o, i)) => {
                    let c = choose|c: EntityId| #[trigger] ga.endpoints(c) == Some(ConnectionEndpoints { source_port: o, target_port: i });
                    assert(!inside(ga, x, ids));
                    assert(!inside(ga, p, ids));
                    assert(g.endpoints(c) == ga.endpoints(c));
                },
                Err(_) => {},
            }
        }
    }
}

/// A port to recreate: direction, socket type, label, and the port it copies.
pub struct PortCopy {
    pub direction: PortDirection,
    pub socket_type: SocketType,
    pub label: String,
    pub source: EntityId,
}

/// A node to recreate: header, position and ports.
pub struct NodeCopy<F> {
    pub header: NodeHeader,
    pub position: (F, F),
    pub ports: Vec<PortCopy>,
}

/// Total number of ports of the node copies in `cs`.
pub open spec fn copy_port_total<F>(cs: Seq<NodeCopy<F>>) -> nat
    decreases cs.len(),
{
    if cs.len() == 0 {
        0
    } else {
        copy_port_total(cs.drop_last()) + cs.last().ports@.len()
    }
}

proof fn lemma_copy_port_total_prefix<F>(cs: Seq<NodeCopy<F>>, i: int)
    requires
        0 <= i <= cs.len(),
    ensures
        copy_port_total(cs.subrange(0, i)) <= copy_port_total(cs),
    decreases cs.len() - i,
{
    if i < cs.len() {
        assert(cs.subrange(0, i + 1).drop_last() =~= cs.subrange(0, i));
        lemma_copy_port_total_prefix(cs, i + 1);
    } else {
        assert(cs.subrange(0, i) =~= cs);
    }
}

/// Direction of port `p`, `Input` where it has none.
pub open spec fn look_dir<F: Copy>(g: NodeGraph<F>, p: EntityId) -> PortDirection {
    match g.dir_of(p) {
        Some(d) => d,
        None => PortDirection::Input,
    }
}

/// In `sub`, `p` is the only port of a Group Input node (`input`) or of a
/// Group Output node: an output (input) port with socket type `st` and
/// label `label`, on a node titled "In: " ("Out: ") and the label.
pub open spec fn io_port<F: Copy>(sub: NodeGraph<F>, p: EntityId, st: SocketType, label: Seq<char>, input: bool) -> bool {
    &&& sub.wd().alive(p)
    &&& sub.endpoints(p) is None
    &&& sub.dir_of(p) == Some(if input { PortDirection::Output } else { PortDirection::Input })
    &&& sub.socket_of(p) == Some(st)
    &&& sub.wd().comp::<PortLabel>(p) matches Some(l) && l.0@ == label
    &&& sub.owner_of(p) matches Some(io) && {
        &&& sub.wd().alive(io)
        &&& sub.endpoints(io) is None
        &&& sub.ports_of(io) == seq![p]
        &&& sub.wd().comp::<GroupIOKind>(io) == Some(if input { GroupIOKind::Input } else { GroupIOKind::Output })
        &&& sub.wd().comp::<NodeHeader>(io) matches Some(h) && h.title@ == (if input { "In: "@ } else { "Out: "@ }) + label
    }
}

/// Node `m` of `sub` copies node `n` of `g`: its header and position where
/// `n` has them, and, in order, its ports with their direction, socket type
/// and label.
pub open spec fn copies_node<F: Copy>(g: NodeGraph<F>, n: EntityId, sub: NodeGraph<F>, m: EntityId) -> bool {
    &&& sub.wd().alive(m)
    &&& sub.endpoints(m) is None
    &&& sub.owner_of(m) is None
    &&& sub.wd().comp::<GroupIOKind>(m) is None
    &&& (g.wd().comp::<NodeHeader>(n) matches Some(h) ==> sub.wd().comp::<NodeHeader>(m) == Some(h))
    &&& (g.wd().comp::<NodePosition<F>>(n) matches Some(q) ==> sub.wd().comp::<NodePosition<F>>(m) == Some(q))
    &&& sub.ports_of(m).len() == g.ports_of(n).len()
    &&& forall|j: int| 0 <= j < g.ports_of(n).len() ==> copies_port(g, g.ports_of(n)[j], sub, #[trigger] sub.ports_of(m)[j])
}

/// `sub` holds a Group Input (`input`) or Group Output port with socket
/// type `st` and label `label`.
pub open spec fn has_io_port<F: Copy>(sub: NodeGraph<F>, st: SocketType, label: Seq<char>, input: bool) -> bool {
    exists|p: EntityId| io_port(sub, p, st, label, input)
}

/// Like `has_io_port`, with the port linked, in subgraph `sid`, to port `q`
/// of the group node, and, where `wired`, joined inside `sub` to a copy of
/// port `internal` of `g0`: a Group Input port feeds the copy, a Group
/// Output port is fed by it.
pub open spec fn io_port_linked<F: Copy>(
    g0: NodeGraph<F>,
    internal: EntityId,
    sub: NodeGraph<F>,
    links: Map<(EntityId, EntityId), EntityId>,
    sid: EntityId,
    q: EntityId,
    st: SocketType,
    label: Seq<char>,
    input: bool,
    wired: bool,
) -> bool {
    exists|p: EntityId|
        #[trigger] io_port(sub, p, st, label, input) && links.contains_key((sid, p)) && links[(sid, p)] == q && (wired ==> if input {
            feeds_copy(g0, internal, sub, p)
        } else {
            fed_from_copy(g0, internal, sub, p)
        })
}

/// `sub` holds a copy of node `n` of `g`.
pub open spec fn has_copy<F: Copy>(g: NodeGraph<F>, n: EntityId, sub: NodeGraph<F>) -> bool {
    exists|c: EntityId| copies_node(g, n, sub, c)
}

/// Port `q` of `sub` has the direction, socket type and label of port `p`
/// of `g`.
pub open spec fn copies_port<F: Copy>(g: NodeGraph<F>, p: EntityId, sub: NodeGraph<F>, q: EntityId) -> bool {
    &&& sub.dir_of(q) == Some(look_dir(g, p))
    &&& sub.socket_of(q) == Some(look_type(g, p))
    &&& sub.wd().comp::<PortLabel>(q) matches Some(l) && l.0@ == look_label(g, p)
}

/// Port `q` of `sub` belongs to a node that is no Group Input or Group
/// Output node and copies port `p` of `g`.
pub open spec fn copied_port<F: Copy>(g: NodeGraph<F>, p: EntityId, sub: NodeGraph<F>, q: EntityId) -> bool {
    &&& sub.wd().alive(q)
    &&& sub.endpoints(q) is None
    &&& copies_port(g, p, sub, q)
    &&& sub.owner_of(q) matches Some(o) && sub.wd().alive(o) && sub.endpoints(o) is None && sub.wd().comp::<GroupIOKind>(o)
        is None
}

/// In `sub`, a connection runs into port `p` from a copy of port `internal`
/// of `g`.
pub open spec fn fed_from_copy<F: Copy>(g: NodeGraph<F>, internal: EntityId, sub: NodeGraph<F>, p: EntityId) -> bool {
    exists|c: EntityId, q: EntityId|
        #[trigger] sub.endpoints(c) == Some(ConnectionEndpoints { source_port: q, target_port: p }) && #[trigger] copied_port(
            g,
            internal,
            sub,
            q,
        )
}

/// In `sub`, a connection runs from port `p` into a copy of port `internal`
/// of `g`.
pub open spec fn feeds_copy<F: Copy>(g: NodeGraph<F>, internal: EntityId, sub: NodeGraph<F>, p: EntityId) -> bool {
    exists|c: EntityId, q: EntityId|
        #[trigger] sub.endpoints(c) == Some(ConnectionEndpoints { source_port: p, target_port: q }) && #[trigger] copied_port(
            g,
            internal,
            sub,
            q,
        )
}

/// Some pair of `m` has key `p`.
pub open spec fn mapped(m: Seq<(EntityId, EntityId)>, p: EntityId) -> bool {
    exists|i: int| 0 <= i < m.len() && m[i].0 == p
}

/// The pairs of `map` join the ports of the nodes `ids` of `g` to copies
/// of them in `sub`, each port of those nodes has a pair, and no two pairs
/// share a copy.
pub open spec fn map_ok<F: Copy>(g: NodeGraph<F>, ids: Seq<EntityId>, sub: NodeGraph<F>, map: Seq<(EntityId, EntityId)>) -> bool {
    &&& forall|i: int| 0 <= i < map.len() ==> copied_port(g, (#[trigger] map[i]).0, sub, map[i].1)
    &&& forall|i: int, i2: int| 0 <= i < i2 < map.len() ==> (#[trigger] map[i]).1 != (#[trigger] map[i2]).1
    &&& forall|k: int, j: int| 0 <= k < ids.len() && 0 <= j < g.ports_of(ids[k]).len() ==> #[trigger] mapped(map, g.ports_of(ids[k])[j])
}

pub(crate) proof fn lemma_map_ok_kept<F: Copy>(
    g: NodeGraph<F>,
    ids: Seq<EntityId>,
    s0: NodeGraph<F>,
    s1: NodeGraph<F>,
    map: Seq<(EntityId, EntityId)>,
)
    requires
        keeps_nodes(s0, s1),
        map_ok(g, ids, s0, map),
    ensures
        map_ok(g, ids, s1, map),
{
    assert forall|i: int| 0 <= i < map.len() implies copied_port(g, (#[trigger] map[i]).0, s1, map[i].1) by {
        lemma_copied_port_kept(g, map[i].0, s0, s1, map[i].1);
    }
}

/// In `sub`, a connection runs from port `p` into the copy that `map` pairs
/// with port `key`.
pub open spec fn wired_to_copy<F: Copy>(sub: NodeGraph<F>, map: Seq<(EntityId, EntityId)>, p: EntityId, key: EntityId) -> bool {
    exists|c: EntityId, i: int|
        #![trigger sub.endpoints(c), map[i]]
        0 <= i < map.len() && map[i].0 == key && sub.endpoints(c) == Some(
            ConnectionEndpoints { source_port: p, target_port: map[i].1 },
        )
}

/// A copied port and a Group Input or Group Output port with its socket
/// type, on the matching sides, can be connected.
pub(crate) proof fn lemma_io_validation<F: Copy>(
    g: NodeGraph<F>,
    internal: EntityId,
    sub: NodeGraph<F>,
    q: EntityId,
    p: EntityId,
    st: SocketType,
    label: Seq<char>,
    input: bool,
)
    requires
        copied_port(g, internal, sub, q),
        st == look_type(g, internal),
        io_port(sub, p, st, label, input),
        g.dir_of(internal) == Some(if input { PortDirection::Input } else { PortDirection::Output }),
    ensures
        input ==> sub.validation(p, q) == Ok::<(EntityId, EntityId), super::ConnectionError>((p, q)),
        !input ==> sub.validation(q, p) == Ok::<(EntityId, EntityId), super::ConnectionError>((q, p)),
{
    crate::types::socket_type::lemma_compatible_reflexive_and_any(st);
    let o = sub.owner_of(q)->0;
    let io = sub.owner_of(p)->0;
    assert(o != io);
}

/// Adding the group node and then removing the selection keeps every node
/// outside the selection, and every connection between ports outside it
/// whose input end no connection leaving the selection is rewired to.
pub(crate) proof fn lemma_group_frame<F: Copy>(
    par0: NodeGraph<F>,
    ga: NodeGraph<F>,
    pr: NodeGraph<F>,
    ids: Seq<EntityId>,
    outputs: Seq<GroupIOBinding>,
)
    requires
        par0.wf(),
        forall|e: EntityId|
            par0.wd().alive(e) && par0.endpoints(e) is None ==> {
                &&& #[trigger] ga.wd().alive(e)
                &&& ga.endpoints(e) is None
                &&& same_port_data(par0, ga, e)
                &&& ga.wd().comp::<NodeHeader>(e) == par0.wd().comp::<NodeHeader>(e)
            },
        keeps_links_but(par0, ga, outputs),
        forall|e: EntityId|
            ga.wd().alive(e) && !ids.contains(e) && ga.owner_of(e) is None && ga.endpoints(e) is None ==> {
                &&& #[trigger] pr.wd().alive(e)
                &&& pr.wd().comp::<NodeHeader>(e) == ga.wd().comp::<NodeHeader>(e)
                &&& pr.wd().comp::<SubgraphRoot>(e) == ga.wd().comp::<SubgraphRoot>(e)
            },
        forall|c: EntityId|
            ga.endpoints(c) matches Some(ep) && !inside(ga, ep.source_port, ids) && !inside(ga, ep.target_port, ids)
                ==> #[trigger] pr.endpoints(c) == ga.endpoints(c),
    ensures
        forall|c: EntityId|
            par0.endpoints(c) matches Some(ep) && !inside(par0, ep.source_port, ids) && !inside(par0, ep.target_port, ids)
                && !hits_external(outputs, ep.target_port) ==> #[trigger] pr.endpoints(c) == par0.endpoints(c),
        forall|e: EntityId|
            par0.wd().alive(e) && !ids.contains(e) && par0.owner_of(e) is None && par0.endpoints(e) is None ==> {
                &&& #[trigger] pr.wd().alive(e)
                &&& pr.wd().comp::<NodeHeader>(e) == par0.wd().comp::<NodeHeader>(e)
            },
{
    assert forall|c: EntityId|
        par0.endpoints(c) matches Some(ep) && !inside(par0, ep.source_port, ids) && !inside(par0, ep.target_port, ids)
            && !hits_external(outputs, ep.target_port) implies #[trigger] pr.endpoints(c) == par0.endpoints(c) by {
        let ep = par0.endpoints(c)->0;
        assert(ga.endpoints(c) == par0.endpoints(c));
        assert(par0.owner_of(ep.source_port) is Some);
        assert(par0.owner_of(ep.target_port) is Some);
        assert(same_port_data(par0, ga, ep.source_port));
        assert(same_port_data(par0, ga, ep.target_port));
    }
    assert forall|e: EntityId|
        par0.wd().alive(e) && !ids.contains(e) && par0.owner_of(e) is None && par0.endpoints(e) is None implies {
            &&& #[trigger] pr.wd().alive(e)
            &&& pr.wd().comp::<NodeHeader>(e) == par0.wd().comp::<NodeHeader>(e)
        } by {
        assert(ga.wd().alive(e));
        assert(same_port_data(par0, ga, e));
    }
}

/// A connection whose input end is not the input port `inp` of a new
/// connection survives making it.
pub(crate) proof fn lemma_conn_survives<F: Copy>(
    t0: NodeGraph<F>,
    s1: NodeGraph<F>,
    c: EntityId,
    ep: ConnectionEndpoints,
    inp: EntityId,
    cnew: EntityId,
)
    requires
        t0.wf(),
        t0.endpoints(c) == Some(ep),
        ep.target_port != inp,
        t0.dir_of(inp) == Some(PortDirection::Input),
        !t0.wd().alive(cnew),
        forall|e: EntityId|
            e != cnew && !t0.conns_of(inp).contains(e) ==> #[trigger] s1.endpoints(e) == t0.endpoints(e),
    ensures
        s1.endpoints(c) == Some(ep),
{
    if t0.conns_of(inp).contains(c) {
        assert(ep.source_port == inp || ep.target_port == inp);
    }
}

/// Through some pairs of `map` for ports `s` and `t`, the copies in `sub`
/// are joined by a connection wherever they can be connected.
pub open spec fn joined_via<F: Copy>(sub: NodeGraph<F>, map: Seq<(EntityId, EntityId)>, s: EntityId, t: EntityId) -> bool {
    exists|i1: int, i2: int|
        #![trigger map[i1], map[i2]]
        0 <= i1 < map.len() && 0 <= i2 < map.len() && map[i1].0 == s && map[i2].0 == t && (sub.validation(
            map[i1].1,
            map[i2].1,
        ) matches Ok((o, i)) ==> exists|c: EntityId| sub.endpoints(c) == Some(ConnectionEndpoints { source_port: o, target_port: i }))
}

/// `sub` holds copies of ports `s` and `t` of `g`, joined by a connection
/// wherever the two copies can be connected.
pub open spec fn copies_joined<F: Copy>(g: NodeGraph<F>, s: EntityId, t: EntityId, sub: NodeGraph<F>) -> bool {
    exists|qs: EntityId, qt: EntityId|
        #[trigger] copied_port(g, s, sub, qs) && #[trigger] copied_port(g, t, sub, qt) && (sub.validation(qs, qt) matches Ok((o, i))
            ==> exists|c: EntityId| sub.endpoints(c) == Some(ConnectionEndpoints { source_port: o, target_port: i }))
}

/// A connection made into an input port that is no copy of `t` keeps the
/// copies of `s` and `t` joined.
pub(crate) proof fn lemma_joined_kept<F: Copy>(
    g: NodeGraph<F>,
    ids: Seq<EntityId>,
    t0: NodeGraph<F>,
    s1: NodeGraph<F>,
    map: Seq<(EntityId, EntityId)>,
    s: EntityId,
    t: EntityId,
    inp: EntityId,
    cnew: EntityId,
)
    requires
        t0.wf(),
        map_ok(g, ids, t0, map),
        keeps_nodes(t0, s1),
        joined_via(t0, map, s, t),
        g.dir_of(s) == Some(PortDirection::Output),
        g.dir_of(t) == Some(PortDirection::Input),
        t0.dir_of(inp) == Some(PortDirection::Input),
        !t0.wd().alive(cnew),
        forall|e: EntityId| e != cnew && !t0.conns_of(inp).contains(e) ==> #[trigger] s1.endpoints(e) == t0.endpoints(e),
        forall|i2: int| 0 <= i2 < map.len() && (#[trigger] map[i2]).0 == t ==> map[i2].1 != inp,
    ensures
        joined_via(s1, map, s, t),
{
    let (i1, i2) = choose|i1: int, i2: int|
        #![trigger map[i1], map[i2]]
        0 <= i1 < map.len() && 0 <= i2 < map.len() && map[i1].0 == s && map[i2].0 == t && (t0.validation(
            map[i1].1,
            map[i2].1,
        ) matches Ok((o, i)) ==> exists|c: EntityId| t0.endpoints(c) == Some(ConnectionEndpoints { source_port: o, target_port: i }));
    let a = map[i1].1;
    let b = map[i2].1;
    assert(copied_port(g, map[i1].0, t0, a));
    assert(copied_port(g, map[i2].0, t0, b));
    assert(s1.wd().alive(a) && s1.wd().alive(b));
    lemma_validation_same(t0, s1, a, b);
    match t0.validation(a, b) {
        Ok((o, i)) => {
            assert(t0.dir_of(a) == Some(PortDirection::Output));
            assert(t0.dir_of(b) == Some(PortDirection::Input));
            assert(i == b);
            let c = choose|c: EntityId| t0.endpoints(c) == Some(ConnectionEndpoints { source_port: o, target_port: i });
            lemma_conn_survives(t0, s1, c, ConnectionEndpoints { source_port: o, target_port: i }, inp, cnew);
        },
        Err(_) => {},
    }
    assert(joined_via(s1, map, s, t));
}

/// Connecting the copies of the `k`-th internal pair keeps the earlier
/// pairs joined and joins this one.
proof fn lemma_internal_step<F: Copy>(
    g: NodeGraph<F>,
    ids: Seq<EntityId>,
    t0: NodeGraph<F>,
    s1: NodeGraph<F>,
    map: Seq<(EntityId, EntityId)>,
    internal: Seq<(EntityId, EntityId)>,
    k: int,
    new_src: EntityId,
    new_tgt: EntityId,
    r: Result<EntityId, super::ConnectionError>,
)
    requires
        t0.wf(),
        map_ok(g, ids, t0, map),
        keeps_nodes(t0, s1),
        0 <= k < internal.len(),
        exists|i: int| 0 <= i < map.len() && map[i] == (internal[k].0, new_src),
        exists|i: int| 0 <= i < map.len() && map[i] == (internal[k].1, new_tgt),
        forall|k1: int|
            0 <= k1 < internal.len() ==> g.dir_of((#[trigger] internal[k1]).0) == Some(PortDirection::Output) && g.dir_of(
                internal[k1].1,
            ) == Some(PortDirection::Input),
        match t0.validation(new_src, new_tgt) {
            Err(e) => r == Err::<EntityId, super::ConnectionError>(e) && s1 == t0,
            Ok((out, inp)) => r matches Ok(c) && {
                &&& !t0.wd().alive(c)
                &&& s1.endpoints(c) == Some(ConnectionEndpoints { source_port: out, target_port: inp })
                &&& forall|e: EntityId|
                    e != c && !t0.conns_of(inp).contains(e) ==> #[trigger] s1.endpoints(e) == t0.endpoints(e)
            },
        },
        forall|k1: int|
            0 <= k1 < k && (forall|k2: int| k1 < k2 < k ==> (#[trigger] internal[k2]).1 != internal[k1].1) ==> joined_via(
                t0,
                map,
                (#[trigger] internal[k1]).0,
                internal[k1].1,
            ),
    ensures
        forall|k1: int|
            0 <= k1 < k + 1 && (forall|k2: int| k1 < k2 < k + 1 ==> (#[trigger] internal[k2]).1 != internal[k1].1) ==> joined_via(
                s1,
                map,
                (#[trigger] internal[k1]).0,
                internal[k1].1,
            ),
{
    let is = choose|i: int| 0 <= i < map.len() && map[i] == (internal[k].0, new_src);
    let it = choose|i: int| 0 <= i < map.len() && map[i] == (internal[k].1, new_tgt);
    assert(copied_port(g, map[is].0, t0, map[is].1));
    assert(copied_port(g, map[it].0, t0, map[it].1));
    assert(s1.wd().alive(new_src) && s1.wd().alive(new_tgt));
    lemma_validation_same(t0, s1, new_src, new_tgt);
    assert forall|k1: int|
        0 <= k1 < k + 1 && (forall|k2: int| k1 < k2 < k + 1 ==> (#[trigger] internal[k2]).1 != internal[k1].1) implies joined_via(
        s1,
        map,
        (#[trigger] internal[k1]).0,
        internal[k1].1,
    ) by {
        if k1 < k {
            assert(internal[k].1 != internal[k1].1);
            assert(joined_via(t0, map, internal[k1].0, internal[k1].1));
            match t0.validation(new_src, new_tgt) {
                Ok((o, i)) => {
                    assert(t0.dir_of(new_src) == Some(PortDirection::Output));
                    assert(t0.dir_of(new_tgt) == Some(PortDirection::Input));
                    assert(i == new_tgt);
                    let c = r->Ok_0;
                    assert forall|i2: int| 0 <= i2 < map.len() && (#[trigger] map[i2]).0 == internal[k1].1 implies map[i2].1 != i by {
                        assert(i2 != it);
                    }
                    lemma_joined_kept(g, ids, t0, s1, map, internal[k1].0, internal[k1].1, i, c);
                },
                Err(_) => {},
            }
        } else {
            match t0.validation(new_src, new_tgt) {
                Ok((o, i)) => {
                    let c = r->Ok_0;
                    assert(s1.endpoints(c) == Some(ConnectionEndpoints { source_port: o, target_port: i }));
                },
                Err(_) => {},
            }
            assert(map[is].0 == internal[k1].0 && map[it].0 == internal[k1].1);
        }
    }
}

/// Both ports of the `k1`-th pair have copies in `map`, and no pair before
/// index `n` after it runs into the same input port.
pub open spec fn pair_open(map: Seq<(EntityId, EntityId)>, pairs: Seq<(EntityId, EntityId)>, k1: int, n: int) -> bool {
    &&& mapped(map, pairs[k1].0)
    &&& mapped(map, pairs[k1].1)
    &&& forall|k2: int| k1 < k2 < n ==> (#[trigger] pairs[k2]).1 != pairs[k1].1
}

pub(crate) proof fn lemma_mapped_push(m: Seq<(EntityId, EntityId)>, e: (EntityId, EntityId), p: EntityId)
    requires
        mapped(m, p),
    ensures
        mapped(m.push(e), p),
{
    let i = choose|i: int| 0 <= i < m.len() && m[i].0 == p;
    assert(m.push(e)[i].0 == p);
}

/// Connecting the copies `new_src`, `new_tgt` of the `k`-th pair keeps the
/// earlier open pairs joined and joins this one.
proof fn lemma_pair_step<F: Copy>(
    g: NodeGraph<F>,
    t0: NodeGraph<F>,
    s1: NodeGraph<F>,
    map: Seq<(EntityId, EntityId)>,
    pairs: Seq<(EntityId, EntityId)>,
    k: int,
    new_src: EntityId,
    new_tgt: EntityId,
    r: Result<EntityId, super::ConnectionError>,
)
    requires
        t0.wf(),
        map_ok(g, Seq::empty(), t0, map),
        keeps_nodes(t0, s1),
        0 <= k < pairs.len(),
        exists|i: int| 0 <= i < map.len() && map[i] == (pairs[k].0, new_src),
        exists|i: int| 0 <= i < map.len() && map[i] == (pairs[k].1, new_tgt),
        forall|k1: int|
            0 <= k1 < pairs.len() ==> g.dir_of((#[trigger] pairs[k1]).0) == Some(PortDirection::Output) && g.dir_of(
                pairs[k1].1,
            ) == Some(PortDirection::Input),
        match t0.validation(new_src, new_tgt) {
            Err(e) => r == Err::<EntityId, super::ConnectionError>(e) && s1 == t0,
            Ok((out, inp)) => r matches Ok(c) && {
                &&& !t0.wd().alive(c)
                &&& s1.endpoints(c) == Some(ConnectionEndpoints { source_port: out, target_port: inp })
                &&& forall|e: EntityId|
                    e != c && !t0.conns_of(inp).contains(e) ==> #[trigger] s1.endpoints(e) == t0.endpoints(e)
            },
        },
        forall|k1: int| 0 <= k1 < k && pair_open(map, pairs, k1, k) ==> joined_via(t0, map, (#[trigger] pairs[k1]).0, pairs[k1].1),
    ensures
        forall|k1: int|
            0 <= k1 < k + 1 && pair_open(map, pairs, k1, k + 1) ==> joined_via(s1, map, (#[trigger] pairs[k1]).0, pairs[k1].1),
{
    let is = choose|i: int| 0 <= i < map.len() && map[i] == (pairs[k].0, new_src);
    let it = choose|i: int| 0 <= i < map.len() && map[i] == (pairs[k].1, new_tgt);
    assert(copied_port(g, map[is].0, t0, map[is].1));
    assert(copied_port(g, map[it].0, t0, map[it].1));
    assert(s1.wd().alive(new_src) && s1.wd().alive(new_tgt));
    lemma_validation_same(t0, s1, new_src, new_tgt);
    assert forall|k1: int| 0 <= k1 < k + 1 && pair_open(map, pairs, k1, k + 1) implies joined_via(
        s1,
        map,
        (#[trigger] pairs[k1]).0,
        pairs[k1].1,
    ) by {
        if k1 < k {
            assert(pairs[k].1 != pairs[k1].1);
            assert(pair_open(map, pairs, k1, k));
            assert(joined_via(t0, map, pairs[k1].0, pairs[k1].1));
            match t0.validation(new_src, new_tgt) {
                Ok((o, i)) => {
                    assert(t0.dir_of(new_src) == Some(PortDirection::Output));
                    assert(t0.dir_of(new_tgt) == Some(PortDirection::Input));
                    assert(i == new_tgt);
                    let c = r->Ok_0;
                    assert forall|i2: int| 0 <= i2 < map.len() && (#[trigger] map[i2]).0 == pairs[k1].1 implies map[i2].1 != i by {
                        assert(i2 != it);
                    }
                    lemma_joined_kept(g, Seq::empty(), t0, s1, map, pairs[k1].0, pairs[k1].1, i, c);
                },
                Err(_) => {},
            }
        } else {
            match t0.validation(new_src, new_tgt) {
                Ok((o, i)) => {
                    let c = r->Ok_0;
                    assert(s1.endpoints(c) == Some(ConnectionEndpoints { source_port: o, target_port: i }));
                },
                Err(_) => {},
            }
            assert(map[is].0 == pairs[k1].0 && map[it].0 == pairs[k1].1);
        }
    }
}

/// The `k1`-th pair is open over all of `pairs`, and its input port is
/// no inner end of a pair of `io_links`.
pub open spec fn kept_pair(
    map: Seq<(EntityId, EntityId)>,
    pairs: Seq<(EntityId, EntityId)>,
    io_links: Seq<(EntityId, EntityId)>,
    k1: int,
) -> bool {
    &&& 0 <= k1 < pairs.len()
    &&& pair_open(map, pairs, k1, pairs.len() as int)
    &&& forall|a: int| 0 <= a < io_links.len() ==> (#[trigger] io_links[a]).1 != pairs[k1].1
}

/// Connecting an outside port of `p0` with the copy `cp` of the inner end
/// of a pair of `io_links` keeps the kept pairs joined.
pub(crate) proof fn lemma_rewire_step<F: Copy>(
    g: NodeGraph<F>,
    t0: NodeGraph<F>,
    s1: NodeGraph<F>,
    map: Seq<(EntityId, EntityId)>,
    pairs: Seq<(EntityId, EntityId)>,
    io_links: Seq<(EntityId, EntityId)>,
    p0: NodeGraph<F>,
    x: EntityId,
    y: EntityId,
    cp: EntityId,
    r: Result<EntityId, super::ConnectionError>,
)
    requires
        t0.wf(),
        map_ok(g, Seq::empty(), t0, map),
        keeps_nodes(t0, s1),
        forall|a: int| 0 <= a < map.len() ==> !p0.wd().alive((#[trigger] map[a]).1),
        (x == cp && p0.wd().alive(y)) || (y == cp && p0.wd().alive(x)),
        exists|j: int, a: int|
            #![trigger map[j], io_links[a]]
            0 <= j < map.len() && 0 <= a < io_links.len() && map[j].1 == cp && map[j].0 == io_links[a].1,
        forall|k1: int|
            0 <= k1 < pairs.len() ==> g.dir_of((#[trigger] pairs[k1]).0) == Some(PortDirection::Output) && g.dir_of(
                pairs[k1].1,
            ) == Some(PortDirection::Input),
        match t0.validation(x, y) {
            Err(e) => r == Err::<EntityId, super::ConnectionError>(e) && s1 == t0,
            Ok((out, inp)) => r matches Ok(c) && {
                &&& !t0.wd().alive(c)
                &&& s1.endpoints(c) == Some(ConnectionEndpoints { source_port: out, target_port: inp })
                &&& forall|e: EntityId|
                    e != c && !t0.conns_of(inp).contains(e) ==> #[trigger] s1.endpoints(e) == t0.endpoints(e)
            },
        },
        forall|k1: int| #[trigger] kept_pair(map, pairs, io_links, k1) ==> joined_via(t0, map, pairs[k1].0, pairs[k1].1),
    ensures
        forall|k1: int| #[trigger] kept_pair(map, pairs, io_links, k1) ==> joined_via(s1, map, pairs[k1].0, pairs[k1].1),
{
    let (j, a) = choose|j: int, a: int|
        #![trigger map[j], io_links[a]]
        0 <= j < map.len() && 0 <= a < io_links.len() && map[j].1 == cp && map[j].0 == io_links[a].1;
    assert forall|k1: int| #[trigger] kept_pair(map, pairs, io_links, k1) implies joined_via(s1, map, pairs[k1].0, pairs[k1].1) by {
        match t0.validation(x, y) {
            Ok((o, i)) => {
                let c = r->Ok_0;
                assert(t0.dir_of(i) == Some(PortDirection::Input));
                assert forall|i2: int| 0 <= i2 < map.len() && (#[trigger] map[i2]).0 == pairs[k1].1 implies map[i2].1 != i by {
                    if i == cp {
                        if map[i2].1 == cp {
                            if i2 < j {
                                assert(map[i2].1 != map[j].1);
                            } else if j < i2 {
                                assert(map[j].1 != map[i2].1);
                            }
                            assert(io_links[a].1 != pairs[k1].1);
                        }
                    } else {
                        assert(!p0.wd().alive(map[i2].1));
                    }
                }
                lemma_joined_kept(g, Seq::empty(), t0, s1, map, pairs[k1].0, pairs[k1].1, i, c);
            },
            Err(_) => {},
        }
    }
}

/// Removing node `x`, which owns none of the copies that `map` records,
/// keeps those copies.
pub(crate) proof fn lemma_map_survives_remove<F: Copy>(
    g: NodeGraph<F>,
    s0: NodeGraph<F>,
    s1: NodeGraph<F>,
    x: EntityId,
    map: Seq<(EntityId, EntityId)>,
)
    requires
        s0.wf(),
        map_ok(g, Seq::empty(), s0, map),
        forall|a: int| 0 <= a < map.len() ==> s0.owner_of((#[trigger] map[a]).1) != Some(x),
        s0.owner_of(x) is None,
        forall|e: EntityId|
            e != x && !s0.ports_of(x).contains(e) && !s0.touches_node(x, e) ==> #[trigger] s1.wd().alive(e) == s0.wd().alive(e),
        s1.wd().comps().same_except_kinds(s0.wd().comps(), set![ComponentKind::FrameMembers]),
    ensures
        map_ok(g, Seq::empty(), s1, map),
{
    let ks = set![ComponentKind::FrameMembers];
    assert forall|a: int| 0 <= a < map.len() implies copied_port(g, (#[trigger] map[a]).0, s1, map[a].1) by {
        let q = map[a].1;
        assert(copied_port(g, map[a].0, s0, q));
        let o = s0.owner_of(q)->0;
        assert(q != x);
        assert(!s0.ports_of(x).contains(q)) by {
            if s0.ports_of(x).contains(q) {
                assert(s0.owner_of(q) == Some(x));
            }
        }
        assert(s1.wd().alive(q));
        assert(s0.can_own_ports(o));
        assert(!s0.ports_of(x).contains(o)) by {
            if s0.ports_of(x).contains(o) {
                assert(s0.owner_of(o) == Some(x));
            }
        }
        assert(s1.wd().alive(o));
        s1.wd().lemma_comp_kept::<PortDirection>(&s0.wd(), ks, q);
        s1.wd().lemma_comp_kept::<PortSocketType>(&s0.wd(), ks, q);
        s1.wd().lemma_comp_kept::<PortLabel>(&s0.wd(), ks, q);
        s1.wd().lemma_comp_kept::<PortOwner>(&s0.wd(), ks, q);
        s1.wd().lemma_comp_kept::<ConnectionEndpoints>(&s0.wd(), ks, q);
        s1.wd().lemma_comp_kept::<ConnectionEndpoints>(&s0.wd(), ks, o);
        s1.wd().lemma_comp_kept::<GroupIOKind>(&s0.wd(), ks, o);
    }
}

/// Removing node `x`, which owns none of the copies that `map` records,
/// keeps the copies of `s` and `t` joined.
pub(crate) proof fn lemma_joined_survives_remove<F: Copy>(
    g: NodeGraph<F>,
    s0: NodeGraph<F>,
    s1: NodeGraph<F>,
    x: EntityId,
    map: Seq<(EntityId, EntityId)>,
    s: EntityId,
    t: EntityId,
)
    requires
        s0.wf(),
        map_ok(g, Seq::empty(), s0, map),
        map_ok(g, Seq::empty(), s1, map),
        forall|a: int| 0 <= a < map.len() ==> s0.owner_of((#[trigger] map[a]).1) != Some(x),
        s0.owner_of(x) is None,
        s0.endpoints(x) is None,
        forall|e: EntityId|
            e != x && !s0.ports_of(x).contains(e) && !s0.touches_node(x, e) ==> #[trigger] s1.wd().alive(e) == s0.wd().alive(e),
        s1.wd().comps().same_except_kinds(s0.wd().comps(), set![ComponentKind::FrameMembers]),
        joined_via(s0, map, s, t),
    ensures
        joined_via(s1, map, s, t),
{
    let ks = set![ComponentKind::FrameMembers];
    let (i1, i2) = choose|i1: int, i2: int|
        #![trigger map[i1], map[i2]]
        0 <= i1 < map.len() && 0 <= i2 < map.len() && map[i1].0 == s && map[i2].0 == t && (s0.validation(
            map[i1].1,
            map[i2].1,
        ) matches Ok((o, i)) ==> exists|c: EntityId| s0.endpoints(c) == Some(ConnectionEndpoints { source_port: o, target_port: i }));
    let a = map[i1].1;
    let b = map[i2].1;
    assert(copied_port(g, map[i1].0, s0, a));
    assert(copied_port(g, map[i2].0, s0, b));
    assert(copied_port(g, map[i1].0, s1, a));
    assert(copied_port(g, map[i2].0, s1, b));
    s1.wd().lemma_comp_kept::<PortOwner>(&s0.wd(), ks, a);
    s1.wd().lemma_comp_kept::<PortOwner>(&s0.wd(), ks, b);
    lemma_validation_same(s0, s1, a, b);
    match s0.validation(a, b) {
        Ok((o, i)) => {
            let c = choose|c: EntityId| s0.endpoints(c) == Some(ConnectionEndpoints { source_port: o, target_port: i });
            assert(c != x);
            assert(!s0.ports_of(x).contains(c)) by {
                if s0.ports_of(x).contains(c) {
                    assert(s0.owner_of(c) == Some(x));
                }
            }
            assert(!s0.touches_node(x, c));
            assert(s1.wd().alive(c));
            s1.wd().lemma_comp_kept::<ConnectionEndpoints>(&s0.wd(), ks, c);
            assert(s1.endpoints(c) == Some(ConnectionEndpoints { source_port: o, target_port: i }));
        },
        Err(_) => {},
    }
    assert(map[i1].0 == s && map[i2].0 == t);
}

/// Some index from `k0` on holds the last pair of `pairs` into port `t`.
pub(crate) proof fn lemma_last_into(pairs: Seq<(EntityId, EntityId)>, t: EntityId, k0: int)
    requires
        0 <= k0 < pairs.len(),
        pairs[k0].1 == t,
    ensures
        exists|k: int| k0 <= k < pairs.len() && #[trigger] pairs[k].1 == t && forall|k2: int| k < k2 < pairs.len() ==> (#[trigger] pairs[k2]).1 != t,
    decreases pairs.len() - k0,
{
    if exists|k2: int| k0 < k2 < pairs.len() && #[trigger] pairs[k2].1 == t {
        let k2 = choose|k2: int| k0 < k2 < pairs.len() && #[trigger] pairs[k2].1 == t;
        lemma_last_into(pairs, t, k2);
    } else {
        assert(pairs[k0].1 == t);
    }
}

/// Connection `c` of `g` runs between ports of two nodes that are no Group
/// Input or Group Output nodes, and no other connection runs into its
/// target port.
pub open spec fn inner_link<F: Copy>(g: NodeGraph<F>, c: EntityId) -> bool {
    g.endpoints(c) matches Some(ep) && {
        &&& g.owner_of(ep.source_port) matches Some(a) && regular_node(g, a)
        &&& g.owner_of(ep.target_port) matches Some(b) && regular_node(g, b)
        &&& forall|c2: EntityId|
            #[trigger] g.endpoints(c2) matches Some(ep2) && ep2.target_port == ep.target_port ==> c2 == c
    }
}

/// A port of a regular node of `sg` has a pair in `map` once every port of
/// every copy in `copies` has one.
pub(crate) proof fn lemma_port_mapped<F: Copy>(sg: NodeGraph<F>, copies: Seq<NodeCopy<F>>, map: Seq<(EntityId, EntityId)>, p: EntityId)
    requires
        sg.wf(),
        forall|n: EntityId|
            sg.wd().comp::<NodeHeader>(n) is Some && sg.wd().comp::<GroupIOKind>(n) is None ==> #[trigger] described_in(sg, n, copies),
        forall|i: int, j: int| 0 <= i < copies.len() && 0 <= j < copies[i].ports@.len() ==> mapped(map, #[trigger] copies[i].ports@[j].source),
        sg.owner_of(p) matches Some(n) && regular_node(sg, n),
    ensures
        mapped(map, p),
{
    let n = sg.owner_of(p)->0;
    assert(described_in(sg, n, copies));
    let i = choose|i: int| 0 <= i < copies.len() && describes(sg, n, #[trigger] copies[i]);
    assert(sg.ports_of(n).contains(p));
    let j = choose|j: int| 0 <= j < sg.ports_of(n).len() && sg.ports_of(n)[j] == p;
    assert(copies[i].ports@[j].source == p);
}

/// After dissolving a group, the kept pairs being joined means that the
/// copies of the two ends of every inner link of the subgraph are joined.
pub(crate) proof fn lemma_inner_links_joined<F: Copy>(
    sg: NodeGraph<F>,
    copies: Seq<NodeCopy<F>>,
    pairs: Seq<(EntityId, EntityId)>,
    io_links: Seq<(EntityId, EntityId)>,
    map: Seq<(EntityId, EntityId)>,
    pf: NodeGraph<F>,
)
    requires
        sg.wf(),
        forall|n: EntityId|
            sg.wd().comp::<NodeHeader>(n) is Some && sg.wd().comp::<GroupIOKind>(n) is None ==> #[trigger] described_in(sg, n, copies),
        forall|i: int, j: int| 0 <= i < copies.len() && 0 <= j < copies[i].ports@.len() ==> mapped(map, #[trigger] copies[i].ports@[j].source),
        forall|i: int|
            0 <= i < pairs.len() ==> exists|c: EntityId|
                #[trigger] sg.endpoints(c) == Some(ConnectionEndpoints { source_port: (#[trigger] pairs[i]).0, target_port: pairs[i].1 }),
        forall|c: EntityId| #[trigger] sg.endpoints(c) matches Some(ep) ==> pairs.contains((ep.source_port, ep.target_port)),
        forall|i: int|
            0 <= i < io_links.len() ==> io_side(sg, (#[trigger] io_links[i]).0) && !io_side(sg, io_links[i].1) && exists|c: EntityId|
                #[trigger] sg.endpoints(c) == Some(ConnectionEndpoints { source_port: io_links[i].0, target_port: io_links[i].1 })
                    || sg.endpoints(c) == Some(ConnectionEndpoints { source_port: io_links[i].1, target_port: io_links[i].0 }),
        map_ok(sg, Seq::empty(), pf, map),
        forall|k1: int| #[trigger] kept_pair(map, pairs, io_links, k1) ==> joined_via(pf, map, pairs[k1].0, pairs[k1].1),
    ensures
        forall|c: EntityId|
            #[trigger] inner_link(sg, c) ==> copies_joined(sg, sg.endpoints(c)->0.source_port, sg.endpoints(c)->0.target_port, pf),
{
    assert forall|c: EntityId| #[trigger] inner_link(sg, c) implies copies_joined(
        sg,
        sg.endpoints(c)->0.source_port,
        sg.endpoints(c)->0.target_port,
        pf,
    ) by {
        let ep = sg.endpoints(c)->0;
        let s = ep.source_port;
        let t = ep.target_port;
        lemma_port_mapped(sg, copies, map, s);
        lemma_port_mapped(sg, copies, map, t);
        assert(pairs.contains((s, t)));
        let k0 = choose|k0: int| 0 <= k0 < pairs.len() && pairs[k0] == (s, t);
        lemma_last_into(pairs, t, k0);
        let k = choose|k: int| k0 <= k < pairs.len() && #[trigger] pairs[k].1 == t && forall|k2: int| k < k2 < pairs.len() ==> (#[trigger] pairs[k2]).1 != t;
        let c1 = choose|c1: EntityId| #[trigger] sg.endpoints(c1) == Some(ConnectionEndpoints { source_port: pairs[k].0, target_port: pairs[k].1 });
        assert(c1 == c);
        assert(pairs[k] == (s, t));
        assert(sg.dir_of(t) == Some(PortDirection::Input));
        assert forall|a: int| 0 <= a < io_links.len() implies (#[trigger] io_links[a]).1 != pairs[k].1 by {
            if io_links[a].1 == t {
                let c2 = choose|c2: EntityId|
                    #[trigger] sg.endpoints(c2) == Some(ConnectionEndpoints { source_port: io_links[a].0, target_port: io_links[a].1 })
                        || sg.endpoints(c2) == Some(ConnectionEndpoints { source_port: io_links[a].1, target_port: io_links[a].0 });
                if sg.endpoints(c2) == Some(ConnectionEndpoints { source_port: io_links[a].1, target_port: io_links[a].0 }) {
                    assert(sg.dir_of(t) == Some(PortDirection::Output));
                } else {
                    assert(c2 == c);
                    assert(io_side(sg, s));
                }
            }
        }
        assert(pair_open(map, pairs, k, pairs.len() as int));
        assert(kept_pair(map, pairs, io_links, k));
        assert(joined_via(pf, map, s, t));
        let (i1, i2) = choose|i1: int, i2: int|
            #![trigger map[i1], map[i2]]
            0 <= i1 < map.len() && 0 <= i2 < map.len() && map[i1].0 == s && map[i2].0 == t && (pf.validation(
                map[i1].1,
                map[i2].1,
            ) matches Ok((o, i)) ==> exists|c3: EntityId| pf.endpoints(c3) == Some(ConnectionEndpoints { source_port: o, target_port: i }));
        assert(copied_port(sg, s, pf, map[i1].1));
        assert(copied_port(sg, t, pf, map[i2].1));
    }
}

/// Through some pair of `map` for port `q`, outside port `s` of `g` feeds
/// the copy of `q` wherever the two can be connected.
pub open spec fn wired_from<F: Copy>(g: NodeGraph<F>, map: Seq<(EntityId, EntityId)>, s: EntityId, q: EntityId) -> bool {
    exists|j: int|
        0 <= j < map.len() && (#[trigger] map[j]).0 == q && (g.validation(s, map[j].1) matches Ok((o, i)) ==> exists|c: EntityId|
            g.endpoints(c) == Some(ConnectionEndpoints { source_port: o, target_port: i }))
}

/// A connection made into an input port that is no copy of `q` keeps `s`
/// wired to the copy of `q`.
pub(crate) proof fn lemma_wired_kept<F: Copy>(
    sg: NodeGraph<F>,
    t0: NodeGraph<F>,
    s1: NodeGraph<F>,
    map: Seq<(EntityId, EntityId)>,
    s: EntityId,
    q: EntityId,
    inp: EntityId,
    cnew: EntityId,
)
    requires
        t0.wf(),
        map_ok(sg, Seq::empty(), t0, map),
        keeps_nodes(t0, s1),
        wired_from(t0, map, s, q),
        t0.wd().alive(s),
        t0.endpoints(s) is None,
        sg.dir_of(q) == Some(PortDirection::Input),
        t0.dir_of(inp) == Some(PortDirection::Input),
        !t0.wd().alive(cnew),
        forall|e: EntityId| e != cnew && !t0.conns_of(inp).contains(e) ==> #[trigger] s1.endpoints(e) == t0.endpoints(e),
        forall|i2: int| 0 <= i2 < map.len() && (#[trigger] map[i2]).0 == q ==> map[i2].1 != inp,
    ensures
        wired_from(s1, map, s, q),
{
    let j = choose|j: int|
        0 <= j < map.len() && (#[trigger] map[j]).0 == q && (t0.validation(s, map[j].1) matches Ok((o, i)) ==> exists|c: EntityId|
            t0.endpoints(c) == Some(ConnectionEndpoints { source_port: o, target_port: i }));
    let b = map[j].1;
    assert(copied_port(sg, map[j].0, t0, b));
    assert(s1.wd().alive(s) && s1.wd().alive(b));
    lemma_validation_same(t0, s1, s, b);
    match t0.validation(s, b) {
        Ok((o, i)) => {
            assert(t0.dir_of(b) == Some(PortDirection::Input));
            assert(i == b);
            let c = choose|c: EntityId| t0.endpoints(c) == Some(ConnectionEndpoints { source_port: o, target_port: i });
            lemma_conn_survives(t0, s1, c, ConnectionEndpoints { source_port: o, target_port: i }, inp, cnew);
        },
        Err(_) => {},
    }
    assert(map[j].0 == q);
}

/// Removing node `x`, which owns neither `s` nor any copy that `map`
/// records, keeps `s` wired to the copy of `q`.
pub(crate) proof fn lemma_wired_survives_remove<F: Copy>(
    sg: NodeGraph<F>,
    s0: NodeGraph<F>,
    s1: NodeGraph<F>,
    x: EntityId,
    map: Seq<(EntityId, EntityId)>,
    s: EntityId,
    q: EntityId,
)
    requires
        s0.wf(),
        map_ok(sg, Seq::empty(), s0, map),
        map_ok(sg, Seq::empty(), s1, map),
        forall|a: int| 0 <= a < map.len() ==> s0.owner_of((#[trigger] map[a]).1) != Some(x),
        s0.owner_of(s) is Some && s0.owner_of(s) != Some(x),
        s0.owner_of(x) is None,
        s0.endpoints(x) is None,
        forall|e: EntityId|
            e != x && !s0.ports_of(x).contains(e) && !s0.touches_node(x, e) ==> #[trigger] s1.wd().alive(e) == s0.wd().alive(e),
        s1.wd().comps().same_except_kinds(s0.wd().comps(), set![ComponentKind::FrameMembers]),
        wired_from(s0, map, s, q),
    ensures
        wired_from(s1, map, s, q),
{
    let ks = set![ComponentKind::FrameMembers];
    let j = choose|j: int|
        0 <= j < map.len() && (#[trigger] map[j]).0 == q && (s0.validation(s, map[j].1) matches Ok((o, i)) ==> exists|c: EntityId|
            s0.endpoints(c) == Some(ConnectionEndpoints { source_port: s, target_port: i }) || s0.endpoints(c) == Some(ConnectionEndpoints { source_port: o, target_port: i }));
    let b = map[j].1;
    assert(copied_port(sg, map[j].0, s0, b));
    assert(copied_port(sg, map[j].0, s1, b));
    assert(s != x);
    assert(!s0.ports_of(x).contains(s)) by {
        if s0.ports_of(x).contains(s) {
            assert(s0.owner_of(s) == Some(x));
        }
    }
    assert(s0.endpoints(s) is None);
    assert(s1.wd().alive(s));
    s1.wd().lemma_comp_kept::<PortOwner>(&s0.wd(), ks, s);
    s1.wd().lemma_comp_kept::<PortDirection>(&s0.wd(), ks, s);
    s1.wd().lemma_comp_kept::<PortSocketType>(&s0.wd(), ks, s);
    s1.wd().lemma_comp_kept::<PortOwner>(&s0.wd(), ks, b);
    lemma_validation_same(s0, s1, s, b);
    match s0.validation(s, b) {
        Ok((o, i)) => {
            let c = choose|c: EntityId| s0.endpoints(c) == Some(ConnectionEndpoints { source_port: o, target_port: i });
            assert(c != x);
            assert(!s0.ports_of(x).contains(c)) by {
                if s0.ports_of(x).contains(c) {
                    assert(s0.owner_of(c) == Some(x));
                }
            }
            assert(!s0.touches_node(x, c));
            assert(s1.wd().alive(c));
            s1.wd().lemma_comp_kept::<ConnectionEndpoints>(&s0.wd(), ks, c);
            assert(s1.endpoints(c) == Some(ConnectionEndpoints { source_port: o, target_port: i }));
        },
        Err(_) => {},
    }
    assert(map[j].0 == q);
}

/// Through some pair of `map` for port `q`, the copy of `q` feeds outside
/// port `t` of `g` wherever the two can be connected.
pub open spec fn wired_to<F: Copy>(g: NodeGraph<F>, map: Seq<(EntityId, EntityId)>, q: EntityId, t: EntityId) -> bool {
    exists|j: int|
        0 <= j < map.len() && (#[trigger] map[j]).0 == q && (g.validation(map[j].1, t) matches Ok((o, i)) ==> exists|c: EntityId|
            g.endpoints(c) == Some(ConnectionEndpoints { source_port: o, target_port: i }))
}

/// A connection made into an input port other than `t` keeps the copy of
/// `q` wired to `t`.
pub(crate) proof fn lemma_wired_to_kept<F: Copy>(
    sg: NodeGraph<F>,
    t0: NodeGraph<F>,
    s1: NodeGraph<F>,
    map: Seq<(EntityId, EntityId)>,
    q: EntityId,
    t: EntityId,
    inp: EntityId,
    cnew: EntityId,
)
    requires
        t0.wf(),
        map_ok(sg, Seq::empty(), t0, map),
        keeps_nodes(t0, s1),
        wired_to(t0, map, q, t),
        t0.wd().alive(t),
        t0.endpoints(t) is None,
        sg.dir_of(q) == Some(PortDirection::Output),
        t0.dir_of(inp) == Some(PortDirection::Input),
        t != inp,
        !t0.wd().alive(cnew),
        forall|e: EntityId| e != cnew && !t0.conns_of(inp).contains(e) ==> #[trigger] s1.endpoints(e) == t0.endpoints(e),
    ensures
        wired_to(s1, map, q, t),
{
    let j = choose|j: int|
        0 <= j < map.len() && (#[trigger] map[j]).0 == q && (t0.validation(map[j].1, t) matches Ok((o, i)) ==> exists|c: EntityId|
            t0.endpoints(c) == Some(ConnectionEndpoints { source_port: o, target_port: i }));
    let b = map[j].1;
    assert(copied_port(sg, map[j].0, t0, b));
    assert(s1.wd().alive(t) && s1.wd().alive(b));
    lemma_validation_same(t0, s1, b, t);
    match t0.validation(b, t) {
        Ok((o, i)) => {
            assert(t0.dir_of(b) == Some(PortDirection::Output));
            assert(i == t);
            let c = choose|c: EntityId| t0.endpoints(c) == Some(ConnectionEndpoints { source_port: o, target_port: i });
            lemma_conn_survives(t0, s1, c, ConnectionEndpoints { source_port: o, target_port: i }, inp, cnew);
        },
        Err(_) => {},
    }
    assert(map[j].0 == q);
}

/// Removing node `x`, which owns neither `t` nor any copy that `map`
/// records, keeps the copy of `q` wired to `t`.
pub(crate) proof fn lemma_wired_to_survives_remove<F: Copy>(
    sg: NodeGraph<F>,
    s0: NodeGraph<F>,
    s1: NodeGraph<F>,
    x: EntityId,
    map: Seq<(EntityId, EntityId)>,
    q: EntityId,
    t: EntityId,
)
    requires
        s0.wf(),
        map_ok(sg, Seq::empty(), s0, map),
        map_ok(sg, Seq::empty(), s1, map),
        forall|a: int| 0 <= a < map.len() ==> s0.owner_of((#[trigger] map[a]).1) != Some(x),
        s0.owner_of(t) is Some && s0.owner_of(t) != Some(x),
        s0.owner_of(x) is None,
        s0.endpoints(x) is None,
        forall|e: EntityId|
            e != x && !s0.ports_of(x).contains(e) && !s0.touches_node(x, e) ==> #[trigger] s1.wd().alive(e) == s0.wd().alive(e),
        s1.wd().comps().same_except_kinds(s0.wd().comps(), set![ComponentKind::FrameMembers]),
        wired_to(s0, map, q, t),
    ensures
        wired_to(s1, map, q, t),
{
    let ks = set![ComponentKind::FrameMembers];
    let j = choose|j: int|
        0 <= j < map.len() && (#[trigger] map[j]).0 == q && (s0.validation(map[j].1, t) matches Ok((o, i)) ==> exists|c: EntityId|
            s0.endpoints(c) == Some(ConnectionEndpoints { source_port: o, target_port: i }));
    let b = map[j].1;
    assert(copied_port(sg, map[j].0, s0, b));
    assert(copied_port(sg, map[j].0, s1, b));
    assert(t != x);
    assert(!s0.ports_of(x).contains(t)) by {
        if s0.ports_of(x).contains(t) {
            assert(s0.owner_of(t) == Some(x));
        }
    }
    assert(s0.endpoints(t) is None);
    assert(s1.wd().alive(t));
    s1.wd().lemma_comp_kept::<PortOwner>(&s0.wd(), ks, t);
    s1.wd().lemma_comp_kept::<PortDirection>(&s0.wd(), ks, t);
    s1.wd().lemma_comp_kept::<PortSocketType>(&s0.wd(), ks, t);
    s1.wd().lemma_comp_kept::<PortOwner>(&s0.wd(), ks, b);
    lemma_validation_same(s0, s1, b, t);
    match s0.validation(b, t) {
        Ok((o, i)) => {
            let c = choose|c: EntityId| s0.endpoints(c) == Some(ConnectionEndpoints { source_port: o, target_port: i });
            assert(c != x);
            assert(!s0.ports_of(x).contains(c)) by {
                if s0.ports_of(x).contains(c) {
                    assert(s0.owner_of(c) == Some(x));
                }
            }
            assert(!s0.touches_node(x, c));
            assert(s1.wd().alive(c));
            s1.wd().lemma_comp_kept::<ConnectionEndpoints>(&s0.wd(), ks, c);
            assert(s1.endpoints(c) == Some(ConnectionEndpoints { source_port: o, target_port: i }));
        },
        Err(_) => {},
    }
    assert(map[j].0 == q);
}

/// The `k`-th internal pair is the last into its input port, and no
/// (outside, inside) pair of `entering` enters the selection there.
pub open spec fn last_internal(internal: Seq<(EntityId, EntityId)>, entering: Seq<(EntityId, EntityId)>, k: int) -> bool {
    &&& 0 <= k < internal.len()
    &&& forall|k2: int| k < k2 < internal.len() ==> (#[trigger] internal[k2]).1 != internal[k].1
    &&& forall|a: int| 0 <= a < entering.len() ==> (#[trigger] entering[a]).1 != internal[k].1
}

/// A connection made into an input port that is no copy of such an
/// internal pair's input port keeps all those pairs joined.
proof fn lemma_joined_all_kept<F: Copy>(
    g: NodeGraph<F>,
    ids: Seq<EntityId>,
    t0: NodeGraph<F>,
    s1: NodeGraph<F>,
    map: Seq<(EntityId, EntityId)>,
    internal: Seq<(EntityId, EntityId)>,
    inputs: Seq<(EntityId, EntityId)>,
    inp: EntityId,
    cnew: EntityId,
)
    requires
        t0.wf(),
        map_ok(g, ids, t0, map),
        keeps_nodes(t0, s1),
        t0.dir_of(inp) == Some(PortDirection::Input),
        !t0.wd().alive(cnew),
        forall|e: EntityId| e != cnew && !t0.conns_of(inp).contains(e) ==> #[trigger] s1.endpoints(e) == t0.endpoints(e),
        forall|k1: int|
            0 <= k1 < internal.len() ==> g.dir_of((#[trigger] internal[k1]).0) == Some(PortDirection::Output) && g.dir_of(
                internal[k1].1,
            ) == Some(PortDirection::Input),
        forall|k1: int| #[trigger] last_internal(internal, inputs, k1) ==> joined_via(t0, map, internal[k1].0, internal[k1].1),
        forall|k1: int, i2: int|
            last_internal(internal, inputs, k1) && 0 <= i2 < map.len() && (#[trigger] map[i2]).0 == (#[trigger] internal[k1]).1
                ==> map[i2].1 != inp,
    ensures
        forall|k1: int| #[trigger] last_internal(internal, inputs, k1) ==> joined_via(s1, map, internal[k1].0, internal[k1].1),
{
    assert forall|k1: int| #[trigger] last_internal(internal, inputs, k1) implies joined_via(s1, map, internal[k1].0, internal[k1].1) by {
        assert forall|i2: int| 0 <= i2 < map.len() && (#[trigger] map[i2]).0 == internal[k1].1 implies map[i2].1 != inp by {
            assert(map[i2].0 == internal[k1].1);
        }
        lemma_joined_kept(g, ids, t0, s1, map, internal[k1].0, internal[k1].1, inp, cnew);
    }
}

/// A port of a node of `ids` has a pair in a map that covers those nodes.
pub(crate) proof fn lemma_inside_mapped<F: Copy>(
    g: NodeGraph<F>,
    ids: Seq<EntityId>,
    sub: NodeGraph<F>,
    map: Seq<(EntityId, EntityId)>,
    p: EntityId,
)
    requires
        g.wf(),
        map_ok(g, ids, sub, map),
        inside(g, p, ids),
    ensures
        mapped(map, p),
{
    let o = g.owner_of(p)->0;
    let k = choose|k: int| 0 <= k < ids.len() && ids[k] == o;
    assert(g.ports_of(o).contains(p));
    let j = choose|j: int| 0 <= j < g.ports_of(o).len() && g.ports_of(o)[j] == p;
    assert(mapped(map, g.ports_of(ids[k])[j]));
}

pub(crate) proof fn lemma_copied_port_kept_but<F: Copy>(
    g: NodeGraph<F>,
    p: EntityId,
    s0: NodeGraph<F>,
    s1: NodeGraph<F>,
    q: EntityId,
    x: EntityId,
)
    requires
        keeps_nodes_but(s0, s1, x),
        copied_port(g, p, s0, q),
        q != x,
        s0.owner_of(q) == Some(x) ==> s1.wd().alive(x) && s1.endpoints(x) is None && s1.wd().comp::<GroupIOKind>(x) is None,
    ensures
        copied_port(g, p, s1, q),
{
    let o = s0.owner_of(q)->0;
    assert(s1.wd().alive(q));
    if o != x {
        assert(s1.wd().alive(o));
    }
}

pub(crate) proof fn lemma_copied_port_kept<F: Copy>(g: NodeGraph<F>, p: EntityId, s0: NodeGraph<F>, s1: NodeGraph<F>, q: EntityId)
    requires
        keeps_nodes(s0, s1),
        copied_port(g, p, s0, q),
    ensures
        copied_port(g, p, s1, q),
{
    let o = s0.owner_of(q)->0;
    assert(s1.wd().alive(q));
    assert(s1.wd().alive(o));
}

pub(crate) proof fn lemma_io_port_kept<F: Copy>(
    s0: NodeGraph<F>,
    s1: NodeGraph<F>,
    p: EntityId,
    st: SocketType,
    label: Seq<char>,
    input: bool,
)
    requires
        keeps_nodes(s0, s1),
        io_port(s0, p, st, label, input),
    ensures
        io_port(s1, p, st, label, input),
{
    let io = s0.owner_of(p)->0;
    assert(s1.wd().alive(p));
    assert(s1.wd().alive(io));
}

pub(crate) proof fn lemma_copy_kept<F: Copy>(g: NodeGraph<F>, n: EntityId, s0: NodeGraph<F>, s1: NodeGraph<F>, m: EntityId)
    requires
        s0.wf(),
        keeps_nodes(s0, s1),
        copies_node(g, n, s0, m),
    ensures
        copies_node(g, n, s1, m),
{
    assert(s1.wd().alive(m));
    assert forall|j: int| 0 <= j < g.ports_of(n).len() implies copies_port(g, g.ports_of(n)[j], s1, #[trigger] s1.ports_of(m)[j]) by {
        let q = s0.ports_of(m)[j];
        assert(s0.ports_of(m).contains(q));
        assert(s0.owner_of(q) == Some(m));
        assert(s0.wd().alive(q));
        assert(s1.wd().alive(q));
        assert(copies_port(g, g.ports_of(n)[j], s0, q));
    }
}

/// `sub` holds, in order, the Group Input ports `sub_in` for the bindings
/// `inputs`, the Group Output ports `sub_out` for the bindings `outputs`,
/// and the copies `copies` of the nodes `ids` of `g`.
pub open spec fn subgraph_made<F: Copy>(
    g: NodeGraph<F>,
    ids: Seq<EntityId>,
    sub: NodeGraph<F>,
    sub_in: Seq<EntityId>,
    sub_out: Seq<EntityId>,
    inputs: Seq<GroupIOBinding>,
    outputs: Seq<GroupIOBinding>,
    copies: Seq<EntityId>,
) -> bool {
    &&& sub_in.len() == inputs.len()
    &&& sub_out.len() == outputs.len()
    &&& copies.len() == ids.len()
    &&& forall|j: int|
        0 <= j < sub_in.len() ==> io_port(sub, #[trigger] sub_in[j], inputs[j].socket_type, inputs[j].label@, true)
    &&& forall|j: int|
        0 <= j < sub_out.len() ==> io_port(sub, #[trigger] sub_out[j], outputs[j].socket_type, outputs[j].label@, false)
    &&& forall|k: int| 0 <= k < ids.len() ==> copies_node(g, ids[k], sub, #[trigger] copies[k])
}

pub(crate) proof fn lemma_subgraph_made_kept<F: Copy>(
    g: NodeGraph<F>,
    ids: Seq<EntityId>,
    s0: NodeGraph<F>,
    s1: NodeGraph<F>,
    sub_in: Seq<EntityId>,
    sub_out: Seq<EntityId>,
    inputs: Seq<GroupIOBinding>,
    outputs: Seq<GroupIOBinding>,
    copies: Seq<EntityId>,
)
    requires
        s0.wf(),
        keeps_nodes(s0, s1),
        subgraph_made(g, ids, s0, sub_in, sub_out, inputs, outputs, copies),
    ensures
        subgraph_made(g, ids, s1, sub_in, sub_out, inputs, outputs, copies),
{
    assert forall|j: int| 0 <= j < sub_in.len() implies io_port(
        s1,
        #[trigger] sub_in[j],
        inputs[j].socket_type,
        inputs[j].label@,
        true,
    ) by {
        lemma_io_port_kept(s0, s1, sub_in[j], inputs[j].socket_type, inputs[j].label@, true);
    }
    assert forall|j: int| 0 <= j < sub_out.len() implies io_port(
        s1,
        #[trigger] sub_out[j],
        outputs[j].socket_type,
        outputs[j].label@,
        false,
    ) by {
        lemma_io_port_kept(s0, s1, sub_out[j], outputs[j].socket_type, outputs[j].label@, false);
    }
    assert forall|k: int| 0 <= k < ids.len() implies copies_node(g, ids[k], s1, #[trigger] copies[k]) by {
        lemma_copy_kept(g, ids[k], s0, s1, copies[k]);
    }
}

/// Node copy `c` describes node `n` of `g`: its header, its position where
/// it has one, and, in order, its ports with their direction, socket type
/// and label.
pub open spec fn describes<F: Copy>(g: NodeGraph<F>, n: EntityId, c: NodeCopy<F>) -> bool {
    &&& g.wd().comp::<NodeHeader>(n) == Some(c.header)
    &&& (g.wd().comp::<NodePosition<F>>(n) matches Some(q) ==> c.position == (q.x, q.y))
    &&& c.ports@.len() == g.ports_of(n).len()
    &&& forall|j: int|
        0 <= j < c.ports@.len() ==> {
            let pc = #[trigger] c.ports@[j];
            let p = g.ports_of(n)[j];
            &&& pc.direction == look_dir(g, p)
            &&& pc.socket_type == look_type(g, p)
            &&& pc.label@ == look_label(g, p)
            &&& pc.source == p
        }
}

/// Copy `c` describes some node of `g` that has a header and is no Group
/// Input or Group Output node.
pub open spec fn copy_of_regular<F: Copy>(g: NodeGraph<F>, c: NodeCopy<F>) -> bool {
    exists|n: EntityId| regular_node(g, n) && g.wd().alive(n) && describes(g, n, c)
}

/// Some copy in `cs` describes node `n` of `g`.
pub open spec fn described_in<F: Copy>(g: NodeGraph<F>, n: EntityId, cs: Seq<NodeCopy<F>>) -> bool {
    exists|i: int| 0 <= i < cs.len() && describes(g, n, #[trigger] cs[i])
}

/// Node `m` of `g` was made from copy `c`: its header, position and, in
/// order, its ports.
pub open spec fn restored<F: Copy>(c: NodeCopy<F>, g: NodeGraph<F>, m: EntityId) -> bool {
    &&& g.wd().alive(m)
    &&& g.endpoints(m) is None
    &&& g.owner_of(m) is None
    &&& g.wd().comp::<GroupIOKind>(m) is None
    &&& g.wd().comp::<NodeHeader>(m) == Some(c.header)
    &&& g.wd().comp::<NodePosition<F>>(m) == Some(NodePosition { x: c.position.0, y: c.position.1 })
    &&& g.ports_of(m).len() == c.ports@.len()
    &&& forall|j: int| 0 <= j < c.ports@.len() ==> restored_port(c.ports@[j], g, #[trigger] g.ports_of(m)[j])
}

pub open spec fn restored_port<F: Copy>(pc: PortCopy, g: NodeGraph<F>, q: EntityId) -> bool {
    &&& g.dir_of(q) == Some(pc.direction)
    &&& g.socket_of(q) == Some(pc.socket_type)
    &&& g.wd().comp::<PortLabel>(q) matches Some(l) && l.0@ == pc.label@
}

/// Some node of `g` that was not alive in `g0` was made from copy `c`.
pub open spec fn has_fresh_restored<F: Copy>(c: NodeCopy<F>, g: NodeGraph<F>, g0: NodeGraph<F>) -> bool {
    exists|m: EntityId| restored(c, g, m) && !g0.wd().alive(m)
}

/// Node `n` of `g` has a header and is no Group Input or Group Output
/// node.
pub open spec fn regular_node<F: Copy>(g: NodeGraph<F>, n: EntityId) -> bool {
    g.wd().comp::<NodeHeader>(n) is Some && g.wd().comp::<GroupIOKind>(n) is None
}

/// `s` holds a copy of node `n` of `g` in a node that was not alive in `s0`.
pub open spec fn fresh_copy<F: Copy>(g: NodeGraph<F>, n: EntityId, s: NodeGraph<F>, s0: NodeGraph<F>) -> bool {
    exists|m: EntityId| copies_node(g, n, s, m) && !s0.wd().alive(m)
}

pub(crate) proof fn lemma_restore_gives_copies<F: Copy>(sg: NodeGraph<F>, copies: Seq<NodeCopy<F>>, p0: NodeGraph<F>, p1: NodeGraph<F>)
    requires
        forall|n: EntityId| regular_node(sg, n) ==> #[trigger] described_in(sg, n, copies),
        forall|i: int| 0 <= i < copies.len() ==> #[trigger] has_fresh_restored(copies[i], p1, p0),
    ensures
        forall|n: EntityId| #[trigger] regular_node(sg, n) ==> fresh_copy(sg, n, p1, p0),
{
    assert forall|n: EntityId| #[trigger] regular_node(sg, n) implies fresh_copy(sg, n, p1, p0) by {
        assert(described_in(sg, n, copies));
        let i = choose|i: int| 0 <= i < copies.len() && describes(sg, n, #[trigger] copies[i]);
        assert(has_fresh_restored(copies[i], p1, p0));
        let m = choose|m: EntityId| restored(copies[i], p1, m) && !p0.wd().alive(m);
        lemma_restored_copies(sg, n, copies[i], p1, m);
    }
}

pub(crate) proof fn lemma_fresh_copies_kept<F: Copy>(sg: NodeGraph<F>, p0: NodeGraph<F>, s0: NodeGraph<F>, s1: NodeGraph<F>)
    requires
        s0.wf(),
        keeps_nodes(s0, s1),
        forall|n: EntityId| #[trigger] regular_node(sg, n) ==> fresh_copy(sg, n, s0, p0),
    ensures
        forall|n: EntityId| #[trigger] regular_node(sg, n) ==> fresh_copy(sg, n, s1, p0),
{
    assert forall|n: EntityId| #[trigger] regular_node(sg, n) implies fresh_copy(sg, n, s1, p0) by {
        let m = choose|m: EntityId| copies_node(sg, n, s0, m) && !p0.wd().alive(m);
        lemma_copy_kept(sg, n, s0, s1, m);
    }
}

pub(crate) proof fn lemma_fresh_copies_survive_remove<F: Copy>(
    sg: NodeGraph<F>,
    p0: NodeGraph<F>,
    s0: NodeGraph<F>,
    s1: NodeGraph<F>,
    x: EntityId,
)
    requires
        s0.wf(),
        p0.wd().alive(x),
        s0.owner_of(x) is None,
        forall|e: EntityId|
            e != x && !s0.ports_of(x).contains(e) && !s0.touches_node(x, e) ==> #[trigger] s1.wd().alive(e) == s0.wd().alive(e),
        forall|q: EntityId| q != x ==> #[trigger] s1.ports_of(q) == s0.ports_of(q),
        s1.wd().comps().same_except_kinds(s0.wd().comps(), set![ComponentKind::FrameMembers]),
        forall|n: EntityId| #[trigger] regular_node(sg, n) ==> fresh_copy(sg, n, s0, p0),
    ensures
        forall|n: EntityId| #[trigger] regular_node(sg, n) ==> fresh_copy(sg, n, s1, p0),
{
    assert forall|n: EntityId| #[trigger] regular_node(sg, n) implies fresh_copy(sg, n, s1, p0) by {
        let m = choose|m: EntityId| copies_node(sg, n, s0, m) && !p0.wd().alive(m);
        lemma_copy_survives_remove(sg, n, s0, s1, x, m);
    }
}

/// A copy of a copy is a copy.
pub proof fn lemma_copies_trans<F: Copy>(g0: NodeGraph<F>, n: EntityId, g1: NodeGraph<F>, m: EntityId, g2: NodeGraph<F>, m2: EntityId)
    requires
        copies_node(g0, n, g1, m),
        copies_node(g1, m, g2, m2),
    ensures
        copies_node(g0, n, g2, m2),
{
    assert forall|j: int| 0 <= j < g0.ports_of(n).len() implies copies_port(g0, g0.ports_of(n)[j], g2, #[trigger] g2.ports_of(m2)[j]) by {
        assert(copies_port(g0, g0.ports_of(n)[j], g1, g1.ports_of(m)[j]));
        assert(copies_port(g1, g1.ports_of(m)[j], g2, g2.ports_of(m2)[j]));
    }
}

/// Port `p` of `g` belongs to a Group Input or Group Output node.
pub open spec fn io_side<F: Copy>(g: NodeGraph<F>, p: EntityId) -> bool {
    g.owner_of(p) matches Some(o) && g.wd().comp::<GroupIOKind>(o) is Some
}

pub(crate) proof fn lemma_restored_copies<F: Copy>(sub: NodeGraph<F>, n: EntityId, c: NodeCopy<F>, g: NodeGraph<F>, m: EntityId)
    requires
        describes(sub, n, c),
        restored(c, g, m),
    ensures
        copies_node(sub, n, g, m),
{
    assert forall|j: int| 0 <= j < sub.ports_of(n).len() implies copies_port(sub, sub.ports_of(n)[j], g, #[trigger] g.ports_of(m)[j]) by {
        assert(restored_port(c.ports@[j], g, g.ports_of(m)[j]));
        let pc = c.ports@[j];
        assert(pc.direction == look_dir(sub, sub.ports_of(n)[j]));
    }
}

pub(crate) proof fn lemma_restored_kept<F: Copy>(c: NodeCopy<F>, s0: NodeGraph<F>, s1: NodeGraph<F>, m: EntityId)
    requires
        s0.wf(),
        keeps_nodes(s0, s1),
        restored(c, s0, m),
    ensures
        restored(c, s1, m),
{
    assert(s1.wd().alive(m));
    assert forall|j: int| 0 <= j < c.ports@.len() implies restored_port(c.ports@[j], s1, #[trigger] s1.ports_of(m)[j]) by {
        let q = s0.ports_of(m)[j];
        assert(s0.ports_of(m).contains(q));
        assert(s0.owner_of(q) == Some(m));
        assert(s0.wd().alive(q));
        assert(s1.wd().alive(q));
        assert(restored_port(c.ports@[j], s0, q));
    }
}

/// Removing node `x` keeps the copies held by other nodes.
pub(crate) proof fn lemma_copy_survives_remove<F: Copy>(g: NodeGraph<F>, n: EntityId, s0: NodeGraph<F>, s1: NodeGraph<F>, x: EntityId, m: EntityId)
    requires
        s0.wf(),
        copies_node(g, n, s0, m),
        m != x,
        s0.owner_of(x) is None,
        forall|e: EntityId|
            e != x && !s0.ports_of(x).contains(e) && !s0.touches_node(x, e) ==> #[trigger] s1.wd().alive(e) == s0.wd().alive(e),
        forall|q: EntityId| q != x ==> #[trigger] s1.ports_of(q) == s0.ports_of(q),
        s1.wd().comps().same_except_kinds(s0.wd().comps(), set![ComponentKind::FrameMembers]),
    ensures
        copies_node(g, n, s1, m),
{
    let ks = set![ComponentKind::FrameMembers];
    assert(m != x);
    assert(!s0.ports_of(x).contains(m)) by {
        if s0.ports_of(x).contains(m) {
            assert(s0.owner_of(m) == Some(x));
        }
    }
    assert(s1.wd().alive(m));
    s1.wd().lemma_comp_kept::<NodeHeader>(&s0.wd(), ks, m);
    s1.wd().lemma_comp_kept::<NodePosition<F>>(&s0.wd(), ks, m);
    s1.wd().lemma_comp_kept::<ConnectionEndpoints>(&s0.wd(), ks, m);
    assert forall|j: int| 0 <= j < g.ports_of(n).len() implies copies_port(g, g.ports_of(n)[j], s1, #[trigger] s1.ports_of(m)[j]) by {
        let q = s0.ports_of(m)[j];
        assert(s0.ports_of(m).contains(q));
        assert(s0.owner_of(q) == Some(m));
        assert(q != x);
        assert(!s0.ports_of(x).contains(q)) by {
            if s0.ports_of(x).contains(q) {
                assert(s0.owner_of(q) == Some(x));
            }
        }
        assert(s0.wd().alive(q));
        assert(s1.wd().alive(q));
        s1.wd().lemma_comp_kept::<PortDirection>(&s0.wd(), ks, q);
        s1.wd().lemma_comp_kept::<PortSocketType>(&s0.wd(), ks, q);
        s1.wd().lemma_comp_kept::<PortLabel>(&s0.wd(), ks, q);
        assert(copies_port(g, g.ports_of(n)[j], s0, q));
    }
    s1.wd().lemma_comp_kept::<PortOwner>(&s0.wd(), ks, m);
}

impl<F: Copy + Default> NodeGraph<F> {
    /// Socket type and label of a port, with the defaults used for a port
    /// that lacks them.
    fn port_look(&self, port: EntityId) -> (r: (SocketType, String))
        requires
            self.wd().wf(),
        ensures
            r.0 == look_type(*self, port),
            r.1@ == look_label(*self, port),
    {
        let st = match self.world.get::<PortSocketType>(port) {
            Some(s) => s.0,
            None => SocketType::Float,
        };
        let label = match self.world.get::<PortLabel>(port) {
            Some(l) => l.0.clone(),
            None => String::new(),
        };
        (st, label)
    }

    /// Sort the connections on the ports of the nodes in `node_ids`: those
    /// that enter the selection from outside, those that leave it, each as a
    /// binding of the outside port to the inside port with the inside port's
    /// socket type and label, and the (source, target) port pairs of those
    /// inside it, each pair once.
    pub(crate) fn cut_connections(&self, node_ids: &[EntityId]) -> (r: (Vec<GroupIOBinding>, Vec<GroupIOBinding>, Vec<(EntityId, EntityId)>))
        requires
            self.wf(),
        ensures
            r.0@.len() + r.1@.len() + r.2@.len() <= link_total(*self, node_ids@),
            ({
                let cut = cut_nodes(*self, node_ids@, node_ids@.len());
                &&& binding_pairs(r.0@) == cut.0
                &&& binding_pairs(r.1@) == cut.1
                &&& r.2@ == cut.2
            }),
            bindings_look_inside(*self, r.0@),
            bindings_look_inside(*self, r.1@),
            forall|k: int|
                0 <= k < r.0@.len() ==> self.owner_of((#[trigger] r.0@[k]).external_port) is Some && self.owner_of(
                    r.0@[k].internal_port,
                ) is Some && !inside(*self, r.0@[k].external_port, node_ids@),
            forall|k: int|
                0 <= k < r.1@.len() ==> self.owner_of((#[trigger] r.1@[k]).external_port) is Some && self.owner_of(
                    r.1@[k].internal_port,
                ) is Some && !inside(*self, r.1@[k].external_port, node_ids@),
            forall|k: int|
                0 <= k < r.0@.len() ==> inside(*self, (#[trigger] r.0@[k]).internal_port, node_ids@) && self.dir_of(
                    r.0@[k].internal_port,
                ) == Some(PortDirection::Input),
            forall|k: int|
                0 <= k < r.1@.len() ==> inside(*self, (#[trigger] r.1@[k]).internal_port, node_ids@) && self.dir_of(
                    r.1@[k].internal_port,
                ) == Some(PortDirection::Output),
            forall|k: int|
                0 <= k < r.2@.len() ==> inside(*self, (#[trigger] r.2@[k]).0, node_ids@) && inside(*self, r.2@[k].1, node_ids@)
                    && self.dir_of(r.2@[k].0) == Some(PortDirection::Output) && self.dir_of(r.2@[k].1) == Some(
                    PortDirection::Input,
                ),
    {
        let ghost ids = node_ids@;
        let mut inputs: Vec<GroupIOBinding> = Vec::new();
        let mut outputs: Vec<GroupIOBinding> = Vec::new();
        let mut internal: Vec<(EntityId, EntityId)> = Vec::new();
        let mut i: usize = 0;
        while i < node_ids.len()
            invariant
                self.wf(),
                node_ids@ == ids,
                i <= node_ids@.len(),
                inputs@.len() + outputs@.len() + internal@.len() <= link_total(*self, node_ids@.subrange(0, i as int)),
                (binding_pairs(inputs@), binding_pairs(outputs@), internal@) == cut_nodes(*self, ids, i as nat),
                bindings_look_inside(*self, inputs@),
                bindings_look_inside(*self, outputs@),
            decreases node_ids.len() - i,
        {
            let nid = node_ids[i];
            let ports = self.node_ports(nid);
            let ghost before_node = cut_nodes(*self, ids, i as nat);
            let mut j: usize = 0;
            while j < ports.len()
                invariant
                    self.wf(),
                    node_ids@ == ids,
                    i < node_ids@.len(),
                    ports@ == self.ports_of(node_ids@[i as int]),
                    j <= ports@.len(),
                    inputs@.len() + outputs@.len() + internal@.len() <= link_total(*self, node_ids@.subrange(0, i as int))
                        + conn_total(*self, ports@.subrange(0, j as int)),
                    (binding_pairs(inputs@), binding_pairs(outputs@), internal@) == cut_ports(
                        *self,
                        before_node,
                        ports@,
                        ids,
                        j as nat,
                    ),
                    bindings_look_inside(*self, inputs@),
                    bindings_look_inside(*self, outputs@),
                decreases ports.len() - j,
            {
                let pid = ports[j];
                let conns = self.port_connections(pid);
                let ghost before_port = cut_ports(*self, before_node, ports@, ids, j as nat);
                let mut k: usize = 0;
                while k < conns.len()
                    invariant
                        self.wf(),
                        node_ids@ == ids,
                        j < ports@.len(),
                        conns@ == self.conns_of(ports@[j as int]),
                        k <= conns@.len(),
                        inputs@.len() + outputs@.len() + internal@.len() <= link_total(*self, node_ids@.subrange(0, i as int))
                            + conn_total(*self, ports@.subrange(0, j as int)) + k,
                        (binding_pairs(inputs@), binding_pairs(outputs@), internal@) == cut_conns(
                            *self,
                            before_port,
                            conns@,
                            ids,
                            k as nat,
                        ),
                        bindings_look_inside(*self, inputs@),
                        bindings_look_inside(*self, outputs@),
                    decreases conns.len() - k,
                {
                    let c = conns[k];
                    let ghost acc = (binding_pairs(inputs@), binding_pairs(outputs@), internal@);
                    match self.world.get::<ConnectionEndpoints>(c) {
                        Some(ep) => {
                            let src_in = match self.world.get::<PortOwner>(ep.source_port) {
                                Some(o) => crate::store::component::contains_id(node_ids, o.0),
                                None => false,
                            };
                            let tgt_in = match self.world.get::<PortOwner>(ep.target_port) {
                                Some(o) => crate::store::component::contains_id(node_ids, o.0),
                                None => false,
                            };
                            if src_in && tgt_in {
                                if !contains_pair(&internal, ep.source_port, ep.target_port) {
                                    internal.push((ep.source_port, ep.target_port));
                                }
                            } else if src_in {
                                let (st, label) = self.port_look(ep.source_port);
                                outputs.push(
                                    GroupIOBinding {
                                        external_port: ep.target_port,
                                        internal_port: ep.source_port,
                                        socket_type: st,
                                        label,
                                    },
                                );
                                proof {
                                    assert(binding_pairs(outputs@) =~= acc.1.push((ep.target_port, ep.source_port)));
                                }
                            } else if tgt_in {
                                let (st, label) = self.port_look(ep.target_port);
                                inputs.push(
                                    GroupIOBinding {
                                        external_port: ep.source_port,
                                        internal_port: ep.target_port,
                                        socket_type: st,
                                        label,
                                    },
                                );
                                proof {
                                    assert(binding_pairs(inputs@) =~= acc.0.push((ep.source_port, ep.target_port)));
                                }
                            }
                        },
                        None => {},
                    }
                    k = k + 1;
                }
                proof {
                    lemma_conn_total_step(*self, ports@, j as int);
                }
                j = j + 1;
            }
            proof {
                lemma_link_total_step(*self, node_ids@, i as int);
                assert(ports@.subrange(0, j as int) =~= ports@);
            }
            i = i + 1;
        }
        proof {
            assert(node_ids@.subrange(0, i as int) =~= node_ids@);
            lemma_cut_nodes_owned(*self, ids, ids.len());
            assert forall|k: int| 0 <= k < inputs@.len() implies self.owner_of((#[trigger] inputs@[k]).external_port) is Some
                && self.owner_of(inputs@[k].internal_port) is Some && !inside(*self, inputs@[k].external_port, node_ids@) by {
                assert(binding_pairs(inputs@)[k] == (inputs@[k].external_port, inputs@[k].internal_port));
            }
            assert forall|k: int| 0 <= k < outputs@.len() implies self.owner_of((#[trigger] outputs@[k]).external_port) is Some
                && self.owner_of(outputs@[k].internal_port) is Some && !inside(*self, outputs@[k].external_port, node_ids@) by {
                assert(binding_pairs(outputs@)[k] == (outputs@[k].external_port, outputs@[k].internal_port));
            }
            assert forall|k: int| 0 <= k < inputs@.len() implies inside(*self, (#[trigger] inputs@[k]).internal_port, node_ids@)
                && self.dir_of(inputs@[k].internal_port) == Some(PortDirection::Input) by {
                assert(binding_pairs(inputs@)[k] == (inputs@[k].external_port, inputs@[k].internal_port));
            }
            assert forall|k: int| 0 <= k < outputs@.len() implies inside(*self, (#[trigger] outputs@[k]).internal_port, node_ids@)
                && self.dir_of(outputs@[k].internal_port) == Some(PortDirection::Output) by {
                assert(binding_pairs(outputs@)[k] == (outputs@[k].external_port, outputs@[k].internal_port));
            }
        }
        (inputs, outputs, internal)
    }

    /// Add the group node standing for subgraph `sub`: a node titled
    /// "Group" with an input port per connection entering the selection and
    /// an output port per connection leaving it, each wired to the outside
    /// port of its connection. Returns the node and its input and output
    /// ports.
    #[verifier::rlimit(80)]
    pub(crate) fn add_group_node(&mut self, sub: EntityId, inputs: &Vec<GroupIOBinding>, outputs: &Vec<GroupIOBinding>) -> (r: (
        EntityId,
        Vec<EntityId>,
        Vec<EntityId>,
    ))
        requires
            old(self).wf(),
            old(self).wd().room() >= 1 + 2 * (inputs@.len() + outputs@.len()),
            forall|k: int| 0 <= k < inputs@.len() ==> old(self).owner_of((#[trigger] inputs@[k]).external_port) is Some,
            forall|k: int| 0 <= k < outputs@.len() ==> old(self).owner_of((#[trigger] outputs@[k]).external_port) is Some,
        ensures
            final(self).wf(),
            !old(self).wd().alive(r.0),
            final(self).wd().alive(r.0),
            final(self).wd().comp::<NodeHeader>(r.0) matches Some(h) && h.title@ == "Group"@,
            final(self).wd().comp::<SubgraphRoot>(r.0) == Some(SubgraphRoot(sub)),
            final(self).owner_of(r.0) is None,
            final(self).endpoints(r.0) is None,
            r.1@.len() == inputs@.len(),
            r.2@.len() == outputs@.len(),
            final(self).ports_of(r.0) == r.1@ + r.2@,
            group_ports_made(*final(self), r.0, r.1@, r.2@, inputs@, outputs@),
            group_wired(*final(self), r.1@, r.2@, inputs@, outputs@),
            forall|e: EntityId|
                old(self).wd().alive(e) && old(self).endpoints(e) is None ==> {
                    &&& #[trigger] final(self).wd().alive(e)
                    &&& final(self).endpoints(e) is None
                    &&& same_port_data(*old(self), *final(self), e)
                    &&& final(self).wd().comp::<NodeHeader>(e) == old(self).wd().comp::<NodeHeader>(e)
                },
            keeps_links_but(*old(self), *final(self), outputs@),
            forall|e: EntityId| #[trigger] final(self).wd().alive(e) ==> old(self).wd().alive(e) || new_for_group(*final(self), r.0, e),
            final(self).wd().room() >= old(self).wd().room() - 1 - 2 * (inputs@.len() + outputs@.len()),
            final(self).wd().allocator_spec().offset() == old(self).wd().allocator_spec().offset(),
    {
        let zero = F::default();
        let g = self.add_node("Group", (zero, zero));
        let ghost g1 = *self;
        self.set_component(g, SubgraphRoot(sub));
        proof {
            reveal_strlit("Group");
            crate::store::components::lemma_same_except_single(self.wd().comps(), g1.wd().comps(), ComponentKind::SubgraphRoot);
        }
        let ghost base = *self;
        proof {
            assert forall|e: EntityId| old(self).wd().alive(e) && old(self).endpoints(e) is None implies {
                &&& #[trigger] base.wd().alive(e)
                &&& base.endpoints(e) is None
                &&& same_port_data(*old(self), base, e)
                &&& base.wd().comp::<NodeHeader>(e) == old(self).wd().comp::<NodeHeader>(e)
            } by {
                assert(e != g);
                g1.wd().lemma_comp_kept::<PortSocketType>(&old(self).wd(), set![ComponentKind::NodeHeader, ComponentKind::NodePosition], e);
                base.wd().lemma_comp_kept::<PortSocketType>(&g1.wd(), set![ComponentKind::SubgraphRoot], e);
                base.wd().lemma_comp_kept::<NodeHeader>(&g1.wd(), set![ComponentKind::SubgraphRoot], e);
            }
            assert forall|c: EntityId|
                old(self).endpoints(c) is Some && !hits_external(outputs@, old(self).endpoints(c)->0.target_port) implies #[trigger] base.endpoints(c)
                    == old(self).endpoints(c) by {
                assert(c != g);
                g1.wd().lemma_comp_kept::<ConnectionEndpoints>(&old(self).wd(), set![ComponentKind::NodeHeader, ComponentKind::NodePosition], c);
                base.wd().lemma_comp_kept::<ConnectionEndpoints>(&g1.wd(), set![ComponentKind::SubgraphRoot], c);
            }
            assert forall|e: EntityId| #[trigger] base.wd().alive(e) implies old(self).wd().alive(e) || e == g || base.ports_of(g).contains(e) by {
                if e != g {
                    assert(g1.wd().alive(e));
                }
            }
        }
        assert(old(self).wd().room() <= u32::MAX as int + 1);
        let total = inputs.len() + outputs.len();
        let mut in_ports: Vec<EntityId> = Vec::new();
        let mut out_ports: Vec<EntityId> = Vec::new();
        let mut i: usize = 0;
        while i < total
            invariant
                self.wf(),
                total == inputs@.len() + outputs@.len(),
                old(self).wd().room() >= 1 + 2 * (inputs@.len() + outputs@.len()),
                i <= inputs@.len() + outputs@.len(),
                in_ports@.len() == (if i < inputs@.len() { i as int } else { inputs@.len() as int }),
                out_ports@.len() == (if i < inputs@.len() { 0 } else { i - inputs@.len() }),
                self.ports_of(g) == in_ports@ + out_ports@,
                self.wd().room() >= old(self).wd().room() - 1 - i,
                self.wd().allocator_spec().offset() == old(self).wd().allocator_spec().offset(),
                !old(self).wd().alive(g),
                self.wd().alive(g),
                self.wd().comp::<NodeHeader>(g) == base.wd().comp::<NodeHeader>(g),
                self.wd().comp::<SubgraphRoot>(g) == Some(SubgraphRoot(sub)),
                self.owner_of(g) is None,
                self.endpoints(g) is None,
                forall|e: EntityId| #[trigger] old(self).wd().alive(e) ==> self.wd().alive(e),
                forall|k: int| 0 <= k < in_ports@.len() ==> !old(self).wd().alive(#[trigger] in_ports@[k]),
                forall|k: int| 0 <= k < out_ports@.len() ==> !old(self).wd().alive(#[trigger] out_ports@[k]),
                forall|k: int|
                    0 <= k < in_ports@.len() ==> group_port(*self, #[trigger] in_ports@[k], g, PortDirection::Input, inputs@[k]),
                forall|k: int|
                    0 <= k < out_ports@.len() ==> group_port(*self, #[trigger] out_ports@[k], g, PortDirection::Output, outputs@[k]),
                forall|e: EntityId|
                    old(self).wd().alive(e) && old(self).endpoints(e) is None ==> {
                        &&& #[trigger] self.wd().alive(e)
                        &&& self.endpoints(e) is None
                        &&& same_port_data(*old(self), *self, e)
                        &&& self.wd().comp::<NodeHeader>(e) == old(self).wd().comp::<NodeHeader>(e)
                    },
                keeps_links_but(*old(self), *self, outputs@),
                forall|e: EntityId| #[trigger] self.wd().alive(e) ==> old(self).wd().alive(e) || e == g || self.ports_of(g).contains(e),
            decreases total - i,
        {
            let ghost w0 = *self;
            let p = if i < inputs.len() {
                self.add_port(g, PortDirection::Input, inputs[i].socket_type, inputs[i].label.as_str())
            } else {
                self.add_port(g, PortDirection::Output, outputs[i - inputs.len()].socket_type, outputs[i - inputs.len()].label.as_str())
            };
            proof {
                let ks = set![ComponentKind::PortOwner, ComponentKind::PortDirection, ComponentKind::PortSocketType, ComponentKind::PortLabel, ComponentKind::PortIndex];
                self.wd().lemma_comp_kept::<NodeHeader>(&w0.wd(), ks, g);
                self.wd().lemma_comp_kept::<SubgraphRoot>(&w0.wd(), ks, g);
                assert forall|e: EntityId| old(self).wd().alive(e) && old(self).endpoints(e) is None implies {
                    &&& #[trigger] self.wd().alive(e)
                    &&& self.endpoints(e) is None
                    &&& same_port_data(*old(self), *self, e)
                    &&& self.wd().comp::<NodeHeader>(e) == old(self).wd().comp::<NodeHeader>(e)
                } by {
                    assert(w0.wd().alive(e));
                    self.wd().lemma_comp_kept::<NodeHeader>(&w0.wd(), ks, e);
                }
                assert forall|c: EntityId|
                    old(self).endpoints(c) is Some && !hits_external(outputs@, old(self).endpoints(c)->0.target_port) implies #[trigger] self.endpoints(c)
                        == old(self).endpoints(c) by {
                    assert(w0.endpoints(c) == old(self).endpoints(c));
                    self.wd().lemma_comp_kept::<ConnectionEndpoints>(&w0.wd(), ks, c);
                }
            }
            if i < inputs.len() {
                in_ports.push(p);
            } else {
                out_ports.push(p);
            }
            proof {
                assert(self.ports_of(g) =~= in_ports@ + out_ports@);
                assert forall|e: EntityId| #[trigger] self.wd().alive(e) implies old(self).wd().alive(e) || e == g || self.ports_of(g).contains(e) by {
                    if e != p {
                        assert(w0.wd().alive(e));
                        if w0.ports_of(g).contains(e) {
                            let t = choose|t: int| 0 <= t < w0.ports_of(g).len() && w0.ports_of(g)[t] == e;
                            assert(self.ports_of(g)[t] == e);
                        }
                    } else {
                        assert(self.ports_of(g)[self.ports_of(g).len() - 1] == p);
                    }
                }
                assert forall|k: int| 0 <= k < in_ports@.len() implies group_port(*self, #[trigger] in_ports@[k], g, PortDirection::Input, inputs@[k]) by {
                    if in_ports@[k] != p {
                        assert(group_port(w0, in_ports@[k], g, PortDirection::Input, inputs@[k]));
                    }
                }
                assert forall|k: int| 0 <= k < out_ports@.len() implies group_port(*self, #[trigger] out_ports@[k], g, PortDirection::Output, outputs@[k]) by {
                    if out_ports@[k] != p {
                        assert(group_port(w0, out_ports@[k], g, PortDirection::Output, outputs@[k]));
                    }
                }
            }
            i = i + 1;
        }
        let ghost ports_made = *self;
        proof {
            assert(self.ports_of(g).no_duplicates());
        }
        let mut k: usize = 0;
        while k < total
            invariant
                self.wf(),
                total == inputs@.len() + outputs@.len(),
                old(self).wd().room() >= 1 + 2 * (inputs@.len() + outputs@.len()),
                k <= inputs@.len() + outputs@.len(),
                in_ports@.len() == inputs@.len(),
                out_ports@.len() == outputs@.len(),
                (in_ports@ + out_ports@).no_duplicates(),
                self.ports_of(g) == in_ports@ + out_ports@,
                self.wd().room() >= old(self).wd().room() - 1 - (inputs@.len() + outputs@.len()) - k,
                self.wd().room() >= inputs@.len() + outputs@.len() - k,
                self.wd().allocator_spec().offset() == old(self).wd().allocator_spec().offset(),
                !old(self).wd().alive(g),
                self.wd().alive(g),
                self.wd().comp::<NodeHeader>(g) == base.wd().comp::<NodeHeader>(g),
                self.wd().comp::<SubgraphRoot>(g) == Some(SubgraphRoot(sub)),
                self.owner_of(g) is None,
                self.endpoints(g) is None,
                forall|a: int| 0 <= a < in_ports@.len() ==> !old(self).wd().alive(#[trigger] in_ports@[a]),
                forall|a: int| 0 <= a < out_ports@.len() ==> !old(self).wd().alive(#[trigger] out_ports@[a]),
                forall|a: int|
                    0 <= a < in_ports@.len() ==> group_port(*self, #[trigger] in_ports@[a], g, PortDirection::Input, inputs@[a]),
                forall|a: int|
                    0 <= a < out_ports@.len() ==> group_port(*self, #[trigger] out_ports@[a], g, PortDirection::Output, outputs@[a]),
                forall|e: EntityId|
                    old(self).wd().alive(e) && old(self).endpoints(e) is None ==> {
                        &&& #[trigger] self.wd().alive(e)
                        &&& self.endpoints(e) is None
                        &&& same_port_data(*old(self), *self, e)
                        &&& self.wd().comp::<NodeHeader>(e) == old(self).wd().comp::<NodeHeader>(e)
                    },
                keeps_links_but(*old(self), *self, outputs@),
                forall|e: EntityId| #[trigger] self.wd().alive(e) ==> old(self).wd().alive(e) || new_for_group(*self, g, e),
                old(self).wf(),
                forall|a: int| 0 <= a < inputs@.len() ==> old(self).owner_of((#[trigger] inputs@[a]).external_port) is Some,
                forall|a: int| 0 <= a < outputs@.len() ==> old(self).owner_of((#[trigger] outputs@[a]).external_port) is Some,
                forall|a: int|
                    0 <= a < k && a < inputs@.len() ==> wired_in(*self, inputs@[a].external_port, #[trigger] in_ports@[a]),
                forall|a: int|
                    inputs@.len() <= a < k ==> wired_out(*self, #[trigger] out_ports@[a - inputs@.len()], outputs@, a - inputs@.len(), k - inputs@.len()),
            decreases total - k,
        {
            let ghost w0 = *self;
            let ghost a_port: EntityId;
            let ghost b_port: EntityId;
            let rc = if k < inputs.len() {
                proof {
                    a_port = inputs@[k as int].external_port;
                    b_port = in_ports@[k as int];
                }
                self.connect(inputs[k].external_port, in_ports[k])
            } else {
                proof {
                    a_port = out_ports@[k - inputs@.len()];
                    b_port = outputs@[k - inputs@.len()].external_port;
                }
                self.connect(out_ports[k - inputs.len()], outputs[k - inputs.len()].external_port)
            };
            proof {
                if k < inputs.len() {
                    assert(w0.ports_of(g)[k as int] == b_port);
                } else {
                    assert(w0.ports_of(g)[k as int] == a_port);
                }
                lemma_new_wire_for_group(*old(self), w0, *self, g, a_port, b_port, rc);
                let ks = set![ComponentKind::ConnectionEndpoints];
                crate::commands::remove::lemma_connect_spares(w0, *self, a_port, b_port, rc);
                assert forall|e: EntityId| w0.wd().alive(e) && w0.endpoints(e) is None implies same_port_data(w0, *self, e) by {
                    self.wd().lemma_comp_kept::<PortOwner>(&w0.wd(), ks, e);
                    self.wd().lemma_comp_kept::<PortDirection>(&w0.wd(), ks, e);
                    self.wd().lemma_comp_kept::<PortSocketType>(&w0.wd(), ks, e);
                    self.wd().lemma_comp_kept::<PortLabel>(&w0.wd(), ks, e);
                }
                assert(w0.wd().alive(g) && w0.endpoints(g) is None);
                self.wd().lemma_comp_kept::<NodeHeader>(&w0.wd(), ks, g);
                self.wd().lemma_comp_kept::<SubgraphRoot>(&w0.wd(), ks, g);
                assert forall|e: EntityId| old(self).wd().alive(e) && old(self).endpoints(e) is None implies {
                    &&& #[trigger] self.wd().alive(e)
                    &&& self.endpoints(e) is None
                    &&& same_port_data(*old(self), *self, e)
                    &&& self.wd().comp::<NodeHeader>(e) == old(self).wd().comp::<NodeHeader>(e)
                } by {
                    assert(w0.wd().alive(e));
                    assert(same_port_data(w0, *self, e));
                    self.wd().lemma_comp_kept::<NodeHeader>(&w0.wd(), ks, e);
                }
                assert forall|c: EntityId|
                    old(self).endpoints(c) is Some && !hits_external(outputs@, old(self).endpoints(c)->0.target_port) implies #[trigger] self.endpoints(c)
                        == old(self).endpoints(c) by {
                    let ep = old(self).endpoints(c)->0;
                    assert(w0.endpoints(c) == old(self).endpoints(c));
                    assert(old(self).wd().alive(ep.source_port));
                    assert(old(self).wd().alive(ep.target_port));
                    assert(w0.dir_of(ep.source_port) == Some(PortDirection::Output));
                    match w0.validation(a_port, b_port) {
                        Ok((o, i)) => {
                            if k < inputs.len() {
                                assert(group_port(w0, in_ports@[k as int], g, PortDirection::Input, inputs@[k as int]));
                                assert(i == in_ports@[k as int]);
                            } else {
                                assert(i == outputs@[k - inputs@.len()].external_port);
                                assert(w0.dir_of(i) == Some(PortDirection::Input));
                            }
                        },
                        Err(_) => {},
                    }
                    lemma_link_survives(w0, *self, a_port, b_port, rc, c);
                }
                assert forall|a: int| 0 <= a < in_ports@.len() implies group_port(*self, #[trigger] in_ports@[a], g, PortDirection::Input, inputs@[a]) by {
                    assert(group_port(w0, in_ports@[a], g, PortDirection::Input, inputs@[a]));
                    assert(same_port_data(w0, *self, in_ports@[a]));
                    self.wd().lemma_comp_kept::<PortLabel>(&w0.wd(), ks, in_ports@[a]);
                }
                assert forall|a: int| 0 <= a < out_ports@.len() implies group_port(*self, #[trigger] out_ports@[a], g, PortDirection::Output, outputs@[a]) by {
                    assert(group_port(w0, out_ports@[a], g, PortDirection::Output, outputs@[a]));
                    assert(same_port_data(w0, *self, out_ports@[a]));
                    self.wd().lemma_comp_kept::<PortLabel>(&w0.wd(), ks, out_ports@[a]);
                }
                let in_len = inputs@.len() as int;
                assert forall|a: int| 0 <= a < k + 1 && a < in_len implies wired_in(*self, inputs@[a].external_port, #[trigger] in_ports@[a]) by {
                    let x = inputs@[a].external_port;
                    let y = in_ports@[a];
                    assert(group_port(w0, y, g, PortDirection::Input, inputs@[a]));
                    assert(old(self).owner_of(x) is Some);
                    assert(w0.wd().alive(x) && w0.endpoints(x) is None);
                    lemma_validation_same(w0, *self, x, y);
                    if a < k {
                        match w0.validation(x, y) {
                            Ok((o, i)) => {
                                let c0 = choose|c: EntityId| #[trigger] w0.endpoints(c) == Some(ConnectionEndpoints { source_port: o, target_port: i });
                                assert(i == y);
                                if k < in_len {
                                    assert(in_ports@[a] != in_ports@[k as int]) by {
                                        assert((in_ports@ + out_ports@)[a] == in_ports@[a]);
                                        assert((in_ports@ + out_ports@)[k as int] == in_ports@[k as int]);
                                    }
                                }
                                lemma_link_survives(w0, *self, a_port, b_port, rc, c0);
                                assert(self.endpoints(c0) == Some(ConnectionEndpoints { source_port: o, target_port: i }));
                            },
                            Err(_) => {},
                        }
                    }
                }
                assert forall|a: int| in_len <= a < k + 1 implies wired_out(*self, #[trigger] out_ports@[a - in_len], outputs@, a - in_len, k + 1 - in_len) by {
                    let j = a - in_len;
                    let x = out_ports@[j];
                    let y = outputs@[j].external_port;
                    assert(group_port(w0, x, g, PortDirection::Output, outputs@[j]));
                    assert(old(self).owner_of(y) is Some);
                    assert(w0.wd().alive(y) && w0.endpoints(y) is None);
                    lemma_validation_same(w0, *self, x, y);
                    if a < k {
                        if forall|k2: int| j < k2 < k + 1 - in_len ==> (#[trigger] outputs@[k2]).external_port != outputs@[j].external_port {
                            assert(forall|k2: int| j < k2 < k - in_len ==> (#[trigger] outputs@[k2]).external_port != outputs@[j].external_port);
                            match w0.validation(x, y) {
                                Ok((o, i)) => {
                                    let c0 = choose|c: EntityId| #[trigger] w0.endpoints(c) == Some(ConnectionEndpoints { source_port: o, target_port: i });
                                    assert(i == y);
                                    assert(outputs@[k - in_len].external_port != y);
                                    lemma_link_survives(w0, *self, a_port, b_port, rc, c0);
                                },
                                Err(_) => {},
                            }
                        }
                    }
                }
            }
            k = k + 1;
        }
        proof {
            let in_len = inputs@.len() as int;
            assert forall|j: int| 0 <= j < out_ports@.len() implies wired_out(
                *self,
                #[trigger] out_ports@[j],
                outputs@,
                j,
                outputs@.len() as int,
            ) by {
                let a = j + in_len;
                assert(in_len <= a < k);
                assert(out_ports@[a - in_len] == out_ports@[j]);
            }
        }
        (g, in_ports, out_ports)
    }

    /// A new graph with entity ids from `start`: a Group Input node per
    /// binding of `inputs` and a Group Output node per binding of
    /// `outputs`, each with one port, a copy of each node of `node_ids` with
    /// its ports, the connections of `internal` between the copies, and a
    /// connection from each Group Input port to the copy of its internal
    /// port and from the copy of each internal port to its Group Output
    /// port. Returns the graph and the ports of its Group Input and Group
    /// Output nodes.
    pub(crate) fn build_subgraph(
        &self,
        start: u32,
        node_ids: &[EntityId],
        inputs: &Vec<GroupIOBinding>,
        outputs: &Vec<GroupIOBinding>,
        internal: &Vec<(EntityId, EntityId)>,
    ) -> (r: (NodeGraph<F>, Vec<EntityId>, Vec<EntityId>))
        requires
            self.wf(),
            inputs@.len() + outputs@.len() + internal@.len() <= link_total(*self, node_ids@),
            3 * link_total(*self, node_ids@) + port_total(*self, node_ids@) <= u32::MAX as int + 1 - start,
            bindings_look_inside(*self, inputs@),
            bindings_look_inside(*self, outputs@),
            forall|k: int|
                0 <= k < inputs@.len() ==> inside(*self, (#[trigger] inputs@[k]).internal_port, node_ids@) && self.dir_of(
                    inputs@[k].internal_port,
                ) == Some(PortDirection::Input),
            forall|k: int|
                0 <= k < outputs@.len() ==> inside(*self, (#[trigger] outputs@[k]).internal_port, node_ids@) && self.dir_of(
                    outputs@[k].internal_port,
                ) == Some(PortDirection::Output),
            forall|k: int|
                0 <= k < internal@.len() ==> inside(*self, (#[trigger] internal@[k]).0, node_ids@) && inside(*self, internal@[k].1, node_ids@)
                    && self.dir_of(internal@[k].0) == Some(PortDirection::Output) && self.dir_of(internal@[k].1) == Some(
                    PortDirection::Input,
                ),
        ensures
            r.0.wf(),
            r.0.wd().allocator_spec().offset() == start,
            forall|k: int|
                #[trigger] last_internal(internal@, binding_pairs(inputs@), k) ==> copies_joined(*self, internal@[k].0, internal@[k].1, r.0),
            r.1@.len() == inputs@.len(),
            r.2@.len() == outputs@.len(),
            forall|j: int|
                0 <= j < inputs@.len() ==> io_port(r.0, #[trigger] r.1@[j], inputs@[j].socket_type, inputs@[j].label@, true),
            forall|j: int|
                0 <= j < outputs@.len() ==> io_port(r.0, #[trigger] r.2@[j], outputs@[j].socket_type, outputs@[j].label@, false),
            forall|k: int| 0 <= k < node_ids@.len() ==> has_copy(*self, #[trigger] node_ids@[k], r.0),
            (r.1@ + r.2@).no_duplicates(),
            forall|a: int| 0 <= a < outputs@.len() ==> #[trigger] fed_from_copy(*self, outputs@[a].internal_port, r.0, r.2@[a]),
            forall|a: int|
                0 <= a < inputs@.len() && (forall|a2: int|
                    a < a2 < inputs@.len() ==> (#[trigger] inputs@[a2]).internal_port != inputs@[a].internal_port) ==> #[trigger] feeds_copy(
                    *self,
                    inputs@[a].internal_port,
                    r.0,
                    r.1@[a],
                ),
    {
        let mut sub: NodeGraph<F> = NodeGraph::new_with_start(start);
        let ghost pt = port_total(*self, node_ids@);
        let ghost links = (inputs@.len() + outputs@.len() + internal@.len()) as int;
        let total = inputs.len() + outputs.len();
        let zero = F::default();
        let mut sub_in: Vec<EntityId> = Vec::new();
        let mut sub_out: Vec<EntityId> = Vec::new();
        let mut i: usize = 0;
        while i < total
            invariant
                sub.wf(),
                total == inputs@.len() + outputs@.len(),
                i <= total,
                sub.wd().allocator_spec().offset() == start,
                sub.wd().room() >= 3 * links + pt - 2 * i,
                links == inputs@.len() + outputs@.len() + internal@.len(),
                sub_in@.len() == (if i < inputs@.len() { i as int } else { inputs@.len() as int }),
                sub_out@.len() == (if i < inputs@.len() { 0 } else { i - inputs@.len() }),
                forall|j: int|
                    0 <= j < sub_in@.len() ==> io_port(
                        sub,
                        #[trigger] sub_in@[j],
                        inputs@[j].socket_type,
                        inputs@[j].label@,
                        true,
                    ),
                forall|j: int|
                    0 <= j < sub_out@.len() ==> io_port(
                        sub,
                        #[trigger] sub_out@[j],
                        outputs@[j].socket_type,
                        outputs@[j].label@,
                        false,
                    ),
                (sub_in@ + sub_out@).no_duplicates(),
            decreases total - i,
        {
            let is_input = i < inputs.len();
            let b = if is_input { &inputs[i] } else { &outputs[i - inputs.len()] };
            let mut title = if is_input { "In: ".to_owned() } else { "Out: ".to_owned() };
            title.append(b.label.as_str());
            let ghost s0 = sub;
            let io = sub.add_node(title.as_str(), (zero, zero));
            let ghost s1 = sub;
            if is_input {
                sub.set_component(io, GroupIOKind::Input);
            } else {
                sub.set_component(io, GroupIOKind::Output);
            }
            let ghost s2 = sub;
            sub.set_component(io, GroupIOLabel(b.label.clone()));
            let ghost s3 = sub;
            let dir = if is_input { PortDirection::Output } else { PortDirection::Input };
            let p = sub.add_port(io, dir, b.socket_type, b.label.as_str());
            proof {
                lemma_add_node_keeps(s0, s1, io);
                lemma_set_io_kind_keeps_but(s1, s2, io);
                lemma_set_other_keeps::<F, GroupIOLabel>(s2, s3);
                lemma_keeps_weaken(s2, s3, io);
                lemma_add_port_keeps_but(s3, sub, io, p);
                lemma_keeps_but_trans(s1, s2, s3, io);
                lemma_keeps_but_trans(s1, s3, sub, io);
                lemma_keeps_join(s0, s1, sub, io);
                assert forall|j: int| 0 <= j < sub_in@.len() implies io_port(
                    sub,
                    #[trigger] sub_in@[j],
                    inputs@[j].socket_type,
                    inputs@[j].label@,
                    true,
                ) by {
                    lemma_io_port_kept(s0, sub, sub_in@[j], inputs@[j].socket_type, inputs@[j].label@, true);
                }
                assert forall|j: int| 0 <= j < sub_out@.len() implies io_port(
                    sub,
                    #[trigger] sub_out@[j],
                    outputs@[j].socket_type,
                    outputs@[j].label@,
                    false,
                ) by {
                    lemma_io_port_kept(s0, sub, sub_out@[j], outputs@[j].socket_type, outputs@[j].label@, false);
                }
                let ks = set![ComponentKind::GroupIOLabel];
                crate::store::components::lemma_same_except_single(s3.wd().comps(), s2.wd().comps(), ComponentKind::GroupIOLabel);
                s3.wd().lemma_comp_kept::<GroupIOKind>(&s2.wd(), ks, io);
                s3.wd().lemma_comp_kept::<NodeHeader>(&s2.wd(), ks, io);
                let kp = set![ComponentKind::PortOwner, ComponentKind::PortDirection, ComponentKind::PortSocketType, ComponentKind::PortLabel, ComponentKind::PortIndex];
                sub.wd().lemma_comp_kept::<GroupIOKind>(&s3.wd(), kp, io);
                sub.wd().lemma_comp_kept::<NodeHeader>(&s3.wd(), kp, io);
                assert(s3.ports_of(io) == Seq::<EntityId>::empty());
                assert(sub.ports_of(io) =~= seq![p]);
                assert(io_port(sub, p, b.socket_type, b.label@, is_input));
                let all = sub_in@ + sub_out@;
                assert forall|a: int| 0 <= a < all.len() implies #[trigger] all[a] != p by {
                    if a < sub_in@.len() {
                        assert(io_port(s0, sub_in@[a], inputs@[a].socket_type, inputs@[a].label@, true));
                    } else {
                        let b2 = a - sub_in@.len();
                        assert(io_port(s0, sub_out@[b2], outputs@[b2].socket_type, outputs@[b2].label@, false));
                        assert(all[a] == sub_out@[b2]);
                    }
                    assert(s0.wd().alive(all[a]));
                    assert(s1.wd().alive(all[a]));
                }
            }
            let ghost old_all = sub_in@ + sub_out@;
            if is_input {
                sub_in.push(p);
            } else {
                sub_out.push(p);
            }
            proof {
                assert(sub_in@ + sub_out@ =~= old_all.push(p));
            }
            i = i + 1;
        }
        let mut map: Vec<(EntityId, EntityId)> = Vec::new();
        let ghost mut copies: Seq<EntityId> = Seq::empty();
        let mut n: usize = 0;
        while n < node_ids.len()
            invariant
                self.wf(),
                sub.wf(),
                n <= node_ids@.len(),
                total == inputs@.len() + outputs@.len(),
                links == inputs@.len() + outputs@.len() + internal@.len(),
                pt == port_total(*self, node_ids@),
                sub.wd().allocator_spec().offset() == start,
                sub.wd().room() >= links + pt - port_total(*self, node_ids@.subrange(0, n as int)),
                sub_in@.len() == inputs@.len(),
                sub_out@.len() == outputs@.len(),
                forall|j: int|
                    0 <= j < sub_in@.len() ==> io_port(
                        sub,
                        #[trigger] sub_in@[j],
                        inputs@[j].socket_type,
                        inputs@[j].label@,
                        true,
                    ),
                forall|j: int|
                    0 <= j < sub_out@.len() ==> io_port(
                        sub,
                        #[trigger] sub_out@[j],
                        outputs@[j].socket_type,
                        outputs@[j].label@,
                        false,
                    ),
                copies.len() == n,
                forall|k: int| 0 <= k < n ==> copies_node(*self, node_ids@[k], sub, #[trigger] copies[k]),
                (sub_in@ + sub_out@).no_duplicates(),
                forall|i: int| 0 <= i < map@.len() ==> copied_port(*self, (#[trigger] map@[i]).0, sub, map@[i].1),
                forall|i: int, i2: int| 0 <= i < i2 < map@.len() ==> (#[trigger] map@[i]).1 != (#[trigger] map@[i2]).1,
                forall|k: int, j: int|
                    0 <= k < n && 0 <= j < self.ports_of(node_ids@[k]).len() ==> #[trigger] mapped(
                        map@,
                        self.ports_of(node_ids@[k])[j],
                    ),
            decreases node_ids.len() - n,
        {
            let nid = node_ids[n];
            proof {
                lemma_port_total_step(*self, node_ids@, n as int);
                lemma_port_total_prefix(*self, node_ids@, n as int + 1);
            }
            let header = match self.world.get::<NodeHeader>(nid) {
                Some(h) => h.clone(),
                None => NodeHeader { title: "?".to_owned(), color: [100, 100, 100], collapsed: false },
            };
            let pos = match self.world.get::<NodePosition<F>>(nid) {
                Some(p) => (p.x, p.y),
                None => (zero, zero),
            };
            let ghost hd = header;
            let ghost s0 = sub;
            let new_nid = sub.add_node(header.title.as_str(), pos);
            let ghost s1 = sub;
            sub.set_component(new_nid, header);
            let ghost s2 = sub;
            proof {
                lemma_add_node_keeps(s0, s1, new_nid);
                lemma_set_header_keeps_but(s1, s2, new_nid);
                let ks = set![ComponentKind::NodeHeader];
                crate::store::components::lemma_same_except_single(s2.wd().comps(), s1.wd().comps(), ComponentKind::NodeHeader);
                s2.wd().lemma_comp_kept::<NodePosition<F>>(&s1.wd(), ks, new_nid);
                s2.wd().lemma_comp_kept::<GroupIOKind>(&s1.wd(), ks, new_nid);
            }
            match self.world.get::<NodeTypeId>(nid) {
                Some(t) => {
                    let ghost s3 = sub;
                    sub.set_component(new_nid, t.clone());
                    proof {
                        lemma_set_other_keeps::<F, NodeTypeId>(s3, sub);
                        lemma_keeps_weaken(s3, sub, new_nid);
                        lemma_keeps_but_trans(s1, s3, sub, new_nid);
                        let ks = set![ComponentKind::NodeTypeId];
                        crate::store::components::lemma_same_except_single(sub.wd().comps(), s3.wd().comps(), ComponentKind::NodeTypeId);
                        sub.wd().lemma_comp_kept::<NodePosition<F>>(&s3.wd(), ks, new_nid);
                        sub.wd().lemma_comp_kept::<NodeHeader>(&s3.wd(), ks, new_nid);
                        sub.wd().lemma_comp_kept::<GroupIOKind>(&s3.wd(), ks, new_nid);
                    }
                },
                None => {},
            }
            match self.world.get::<CustomBodyHeight<F>>(nid) {
                Some(h) => {
                    let ghost s3 = sub;
                    sub.set_component(new_nid, *h);
                    proof {
                        lemma_set_other_keeps::<F, CustomBodyHeight<F>>(s3, sub);
                        lemma_keeps_weaken(s3, sub, new_nid);
                        lemma_keeps_but_trans(s1, s3, sub, new_nid);
                        let ks = set![ComponentKind::CustomBodyHeight];
                        crate::store::components::lemma_same_except_single(sub.wd().comps(), s3.wd().comps(), ComponentKind::CustomBodyHeight);
                        sub.wd().lemma_comp_kept::<NodePosition<F>>(&s3.wd(), ks, new_nid);
                        sub.wd().lemma_comp_kept::<NodeHeader>(&s3.wd(), ks, new_nid);
                        sub.wd().lemma_comp_kept::<GroupIOKind>(&s3.wd(), ks, new_nid);
                    }
                },
                None => {},
            }
            let ports = self.node_ports(nid);
            let ghost s4 = sub;
            let mut j: usize = 0;
            while j < ports.len()
                invariant
                    self.wf(),
                    sub.wf(),
                    n < node_ids@.len(),
                    nid == node_ids@[n as int],
                    ports@ == self.ports_of(node_ids@[n as int]),
                    j <= ports@.len(),
                    sub.can_own_ports(new_nid),
                    pt >= port_total(*self, node_ids@.subrange(0, n as int + 1)),
                    links >= 0,
                    sub.wd().allocator_spec().offset() == start,
                    sub.wd().room() >= links + pt - port_total(*self, node_ids@.subrange(0, n as int + 1)) + ports@.len() - j,
                    keeps_nodes_but(s4, sub, new_nid),
                    sub.wd().alive(new_nid),
                    sub.endpoints(new_nid) is None,
                    sub.wd().comp::<NodeHeader>(new_nid) == Some(hd),
                    sub.wd().comp::<GroupIOKind>(new_nid) is None,
                    sub.wd().comp::<NodePosition<F>>(new_nid) == Some(NodePosition { x: pos.0, y: pos.1 }),
                    sub.ports_of(new_nid).len() == j,
                    forall|i: int| 0 <= i < j ==> copies_port(*self, ports@[i], sub, #[trigger] sub.ports_of(new_nid)[i]),
                    !s0.wd().alive(new_nid),
                    keeps_nodes(s0, s1),
                    forall|i: int| 0 <= i < map@.len() ==> copied_port(*self, (#[trigger] map@[i]).0, sub, map@[i].1),
                    forall|i: int, i2: int| 0 <= i < i2 < map@.len() ==> (#[trigger] map@[i]).1 != (#[trigger] map@[i2]).1,
                    forall|k: int, j2: int|
                        0 <= k < n && 0 <= j2 < self.ports_of(node_ids@[k]).len() ==> #[trigger] mapped(
                            map@,
                            self.ports_of(node_ids@[k])[j2],
                        ),
                    forall|j2: int| 0 <= j2 < j ==> #[trigger] mapped(map@, ports@[j2]),
                decreases ports.len() - j,
            {
                let old_pid = ports[j];
                let dir = match self.world.get::<PortDirection>(old_pid) {
                    Some(d) => *d,
                    None => PortDirection::Input,
                };
                let (st, label) = self.port_look(old_pid);
                let ghost t0 = sub;
                let new_pid = sub.add_port(new_nid, dir, st, label.as_str());
                proof {
                    lemma_add_port_keeps_but(t0, sub, new_nid, new_pid);
                    lemma_keeps_but_trans(s4, t0, sub, new_nid);
                    let kp = set![ComponentKind::PortOwner, ComponentKind::PortDirection, ComponentKind::PortSocketType, ComponentKind::PortLabel, ComponentKind::PortIndex];
                    sub.wd().lemma_comp_kept::<NodeHeader>(&t0.wd(), kp, new_nid);
                    sub.wd().lemma_comp_kept::<NodePosition<F>>(&t0.wd(), kp, new_nid);
                    sub.wd().lemma_comp_kept::<GroupIOKind>(&t0.wd(), kp, new_nid);
                    assert(sub.ports_of(new_nid) == t0.ports_of(new_nid).push(new_pid));
                    assert forall|i: int| 0 <= i < j + 1 implies copies_port(*self, ports@[i], sub, #[trigger] sub.ports_of(new_nid)[i]) by {
                        if i < j {
                            let q = t0.ports_of(new_nid)[i];
                            assert(t0.ports_of(new_nid).contains(q));
                            assert(t0.wd().alive(q));
                            assert(q != new_pid);
                            assert(copies_port(*self, ports@[i], t0, q));
                        }
                    }
                }
                let ghost map0 = map@;
                map.push((old_pid, new_pid));
                proof {
                    assert forall|i: int| 0 <= i < map@.len() implies copied_port(*self, (#[trigger] map@[i]).0, sub, map@[i].1) by {
                        if i < map0.len() {
                            assert(map@[i] == map0[i]);
                            assert(copied_port(*self, map0[i].0, t0, map0[i].1));
                            assert(t0.wd().alive(map0[i].1));
                            lemma_copied_port_kept_but(*self, map0[i].0, t0, sub, map0[i].1, new_nid);
                        } else {
                            assert(sub.owner_of(new_pid) == Some(new_nid));
                            assert(copies_port(*self, old_pid, sub, new_pid));
                        }
                    }
                    assert forall|i: int, i2: int| 0 <= i < i2 < map@.len() implies (#[trigger] map@[i]).1 != (#[trigger] map@[i2]).1 by {
                        if i2 == map0.len() {
                            assert(copied_port(*self, map0[i].0, t0, map0[i].1));
                        } else {
                            assert(map@[i] == map0[i] && map@[i2] == map0[i2]);
                        }
                    }
                    assert forall|k: int, j2: int|
                        0 <= k < n && 0 <= j2 < self.ports_of(node_ids@[k]).len() implies #[trigger] mapped(
                        map@,
                        self.ports_of(node_ids@[k])[j2],
                    ) by {
                        assert(mapped(map0, self.ports_of(node_ids@[k])[j2]));
                        let i = choose|i: int| 0 <= i < map0.len() && map0[i].0 == self.ports_of(node_ids@[k])[j2];
                        assert(map@[i] == map0[i]);
                    }
                    assert forall|j2: int| 0 <= j2 < j + 1 implies #[trigger] mapped(map@, ports@[j2]) by {
                        if j2 < j {
                            assert(mapped(map0, ports@[j2]));
                            let i = choose|i: int| 0 <= i < map0.len() && map0[i].0 == ports@[j2];
                            assert(map@[i] == map0[i]);
                        } else {
                            assert(map@[map0.len() as int].0 == ports@[j2]);
                        }
                    }
                }
                j = j + 1;
            }
            proof {
                lemma_keeps_but_trans(s1, s4, sub, new_nid);
                lemma_keeps_join(s0, s1, sub, new_nid);
                assert(copies_node(*self, nid, sub, new_nid));
                assert forall|k: int, j2: int|
                    0 <= k < n + 1 && 0 <= j2 < self.ports_of(node_ids@[k]).len() implies #[trigger] mapped(
                    map@,
                    self.ports_of(node_ids@[k])[j2],
                ) by {
                    if k == n {
                        assert(mapped(map@, ports@[j2]));
                    }
                }
                assert forall|k: int| 0 <= k < n implies copies_node(*self, node_ids@[k], sub, #[trigger] copies[k]) by {
                    lemma_copy_kept(*self, node_ids@[k], s0, sub, copies[k]);
                }
                assert forall|j: int| 0 <= j < sub_in@.len() implies io_port(
                    sub,
                    #[trigger] sub_in@[j],
                    inputs@[j].socket_type,
                    inputs@[j].label@,
                    true,
                ) by {
                    lemma_io_port_kept(s0, sub, sub_in@[j], inputs@[j].socket_type, inputs@[j].label@, true);
                }
                assert forall|j: int| 0 <= j < sub_out@.len() implies io_port(
                    sub,
                    #[trigger] sub_out@[j],
                    outputs@[j].socket_type,
                    outputs@[j].label@,
                    false,
                ) by {
                    lemma_io_port_kept(s0, sub, sub_out@[j], outputs@[j].socket_type, outputs@[j].label@, false);
                }
                copies = copies.push(new_nid);
            }
            n = n + 1;
        }
        assert(node_ids@.subrange(0, n as int) =~= node_ids@);
        assert(subgraph_made(*self, node_ids@, sub, sub_in@, sub_out@, inputs@, outputs@, copies));
        assert(map_ok(*self, node_ids@, sub, map@));
        let mut k: usize = 0;
        while k < internal.len()
            invariant
                sub.wf(),
                k <= internal@.len(),
                total == inputs@.len() + outputs@.len(),
                links == inputs@.len() + outputs@.len() + internal@.len(),
                sub.wd().allocator_spec().offset() == start,
                sub.wd().room() >= links - k,
                subgraph_made(*self, node_ids@, sub, sub_in@, sub_out@, inputs@, outputs@, copies),
                (sub_in@ + sub_out@).no_duplicates(),
                map_ok(*self, node_ids@, sub, map@),
                self.wf(),
                forall|k1: int|
                    0 <= k1 < internal@.len() ==> inside(*self, (#[trigger] internal@[k1]).0, node_ids@) && inside(*self, internal@[k1].1, node_ids@)
                        && self.dir_of(internal@[k1].0) == Some(PortDirection::Output) && self.dir_of(internal@[k1].1) == Some(
                        PortDirection::Input,
                    ),
                forall|k1: int|
                    0 <= k1 < k && (forall|k2: int| k1 < k2 < k ==> (#[trigger] internal@[k2]).1 != internal@[k1].1) ==> joined_via(
                        sub,
                        map@,
                        (#[trigger] internal@[k1]).0,
                        internal@[k1].1,
                    ),
            decreases internal.len() - k,
        {
            let (old_src, old_tgt) = internal[k];
            proof {
                lemma_inside_mapped(*self, node_ids@, sub, map@, old_src);
                lemma_inside_mapped(*self, node_ids@, sub, map@, old_tgt);
            }
            match (last_match(&map, old_src), last_match(&map, old_tgt)) {
                (Some(new_src), Some(new_tgt)) => {
                    let ghost t0 = sub;
                    let r = sub.connect(new_src, new_tgt);
                    proof {
                        lemma_connect_keeps_nodes(t0, sub, new_src, new_tgt, r);
                        lemma_subgraph_made_kept(*self, node_ids@, t0, sub, sub_in@, sub_out@, inputs@, outputs@, copies);
                        lemma_map_ok_kept(*self, node_ids@, t0, sub, map@);
                        lemma_internal_step(*self, node_ids@, t0, sub, map@, internal@, k as int, new_src, new_tgt, r);
                    }
                },
                _ => {
                    proof {
                        assert(false);
                    }
                },
            }
            k = k + 1;
        }
        let mut m: usize = 0;
        while m < total
            invariant
                self.wf(),
                sub.wf(),
                m <= total,
                total == inputs@.len() + outputs@.len(),
                sub.wd().allocator_spec().offset() == start,
                sub.wd().room() >= total - m,
                subgraph_made(*self, node_ids@, sub, sub_in@, sub_out@, inputs@, outputs@, copies),
                (sub_in@ + sub_out@).no_duplicates(),
                map_ok(*self, node_ids@, sub, map@),
                bindings_look_inside(*self, inputs@),
                bindings_look_inside(*self, outputs@),
                forall|k: int|
                    0 <= k < inputs@.len() ==> inside(*self, (#[trigger] inputs@[k]).internal_port, node_ids@) && self.dir_of(
                        inputs@[k].internal_port,
                    ) == Some(PortDirection::Input),
                forall|k: int|
                    0 <= k < outputs@.len() ==> inside(*self, (#[trigger] outputs@[k]).internal_port, node_ids@) && self.dir_of(
                        outputs@[k].internal_port,
                    ) == Some(PortDirection::Output),
                forall|a: int|
                    0 <= a < m - inputs@.len() ==> #[trigger] fed_from_copy(*self, outputs@[a].internal_port, sub, sub_out@[a]),
                forall|a: int|
                    0 <= a < m && a < inputs@.len() && (forall|a2: int|
                        a < a2 < m && a2 < inputs@.len() ==> (#[trigger] inputs@[a2]).internal_port != inputs@[a].internal_port)
                        ==> #[trigger] wired_to_copy(sub, map@, sub_in@[a], inputs@[a].internal_port),
                forall|k1: int|
                    0 <= k1 < internal@.len() ==> self.dir_of((#[trigger] internal@[k1]).0) == Some(PortDirection::Output)
                        && self.dir_of(internal@[k1].1) == Some(PortDirection::Input),
                forall|k1: int|
                    #[trigger] last_internal(internal@, binding_pairs(inputs@), k1) ==> joined_via(sub, map@, internal@[k1].0, internal@[k1].1),
            decreases total - m,
        {
            let ghost t0 = sub;
            let in_len = inputs.len();
            if m < in_len {
                proof {
                    lemma_inside_mapped(*self, node_ids@, sub, map@, inputs@[m as int].internal_port);
                }
                match last_match(&map, inputs[m].internal_port) {
                    Some(new_tgt) => {
                        let ghost internal_port = inputs@[m as int].internal_port;
                        let ghost ni = choose|i: int| 0 <= i < map@.len() && map@[i] == (internal_port, new_tgt);
                        proof {
                            assert(copied_port(*self, internal_port, t0, new_tgt));
                            assert(io_port(t0, sub_in@[m as int], inputs@[m as int].socket_type, inputs@[m as int].label@, true));
                            lemma_io_validation(
                                *self,
                                internal_port,
                                t0,
                                new_tgt,
                                sub_in@[m as int],
                                inputs@[m as int].socket_type,
                                inputs@[m as int].label@,
                                true,
                            );
                        }
                        let r = sub.connect(sub_in[m], new_tgt);
                        proof {
                            lemma_connect_keeps_nodes(t0, sub, sub_in@[m as int], new_tgt, r);
                            let c = r->Ok_0;
                            assert forall|k1: int, i2: int|
                                last_internal(internal@, binding_pairs(inputs@), k1) && 0 <= i2 < map@.len() && (#[trigger] map@[i2]).0 == (
                                #[trigger] internal@[k1]).1 implies map@[i2].1 != new_tgt by {
                                assert(binding_pairs(inputs@)[m as int].1 != internal@[k1].1);
                                assert(binding_pairs(inputs@)[m as int].1 == inputs@[m as int].internal_port);
                                assert(i2 != ni);
                            }
                            assert(t0.dir_of(new_tgt) == Some(PortDirection::Input));
                            lemma_joined_all_kept(*self, node_ids@, t0, sub, map@, internal@, binding_pairs(inputs@), new_tgt, c);
                            assert(sub.endpoints(c) == Some(ConnectionEndpoints { source_port: sub_in@[m as int], target_port: map@[ni].1 }));
                            assert(wired_to_copy(sub, map@, sub_in@[m as int], internal_port));
                            assert forall|a: int|
                                0 <= a < m + 1 && a < inputs@.len() && (forall|a2: int|
                                    a < a2 < m + 1 && a2 < inputs@.len() ==> (#[trigger] inputs@[a2]).internal_port
                                        != inputs@[a].internal_port) implies #[trigger] wired_to_copy(
                                sub,
                                map@,
                                sub_in@[a],
                                inputs@[a].internal_port,
                            ) by {
                                if a < m {
                                    assert(inputs@[m as int].internal_port != inputs@[a].internal_port);
                                    assert(wired_to_copy(t0, map@, sub_in@[a], inputs@[a].internal_port));
                                    let (c1, i1) = choose|c1: EntityId, i1: int|
                                        #![trigger t0.endpoints(c1), map@[i1]]
                                        0 <= i1 < map@.len() && map@[i1].0 == inputs@[a].internal_port && t0.endpoints(c1) == Some(
                                            ConnectionEndpoints { source_port: sub_in@[a], target_port: map@[i1].1 },
                                        );
                                    assert(i1 != ni);
                                    assert(map@[i1].1 != map@[ni].1);
                                    lemma_conn_survives(
                                        t0,
                                        sub,
                                        c1,
                                        ConnectionEndpoints { source_port: sub_in@[a], target_port: map@[i1].1 },
                                        new_tgt,
                                        c,
                                    );
                                    assert(sub.endpoints(c1) == Some(ConnectionEndpoints { source_port: sub_in@[a], target_port: map@[i1].1 }));
                                }
                            }
                        }
                    },
                    None => {},
                }
            } else {
                let a0 = m - in_len;
                proof {
                    lemma_inside_mapped(*self, node_ids@, sub, map@, outputs@[a0 as int].internal_port);
                }
                match last_match(&map, outputs[a0].internal_port) {
                    Some(new_src) => {
                        let ghost internal_port = outputs@[a0 as int].internal_port;
                        proof {
                            let ni = choose|i: int| 0 <= i < map@.len() && map@[i] == (internal_port, new_src);
                            assert(copied_port(*self, internal_port, t0, new_src));
                            assert(io_port(t0, sub_out@[a0 as int], outputs@[a0 as int].socket_type, outputs@[a0 as int].label@, false));
                            lemma_io_validation(
                                *self,
                                internal_port,
                                t0,
                                new_src,
                                sub_out@[a0 as int],
                                outputs@[a0 as int].socket_type,
                                outputs@[a0 as int].label@,
                                false,
                            );
                        }
                        let r = sub.connect(new_src, sub_out[a0]);
                        proof {
                            lemma_connect_keeps_nodes(t0, sub, new_src, sub_out@[a0 as int], r);
                            let c = r->Ok_0;
                            let inp = sub_out@[a0 as int];
                            assert(io_port(t0, inp, outputs@[a0 as int].socket_type, outputs@[a0 as int].label@, false));
                            assert forall|k1: int, i2: int|
                                last_internal(internal@, binding_pairs(inputs@), k1) && 0 <= i2 < map@.len() && (#[trigger] map@[i2]).0 == (
                                #[trigger] internal@[k1]).1 implies map@[i2].1 != inp by {
                                assert(copied_port(*self, map@[i2].0, t0, map@[i2].1));
                            }
                            lemma_joined_all_kept(*self, node_ids@, t0, sub, map@, internal@, binding_pairs(inputs@), inp, c);
                            lemma_copied_port_kept(*self, internal_port, t0, sub, new_src);
                            assert(sub.endpoints(c) == Some(ConnectionEndpoints { source_port: new_src, target_port: inp }));
                            assert(fed_from_copy(*self, internal_port, sub, inp));
                            let all = sub_in@ + sub_out@;
                            assert forall|a: int| 0 <= a < m + 1 - inputs@.len() implies #[trigger] fed_from_copy(
                                *self,
                                outputs@[a].internal_port,
                                sub,
                                sub_out@[a],
                            ) by {
                                if a < a0 {
                                    assert(fed_from_copy(*self, outputs@[a].internal_port, t0, sub_out@[a]));
                                    let (c1, q1) = choose|c1: EntityId, q1: EntityId|
                                        #[trigger] t0.endpoints(c1) == Some(ConnectionEndpoints { source_port: q1, target_port: sub_out@[a] })
                                            && #[trigger] copied_port(*self, outputs@[a].internal_port, t0, q1);
                                    assert(all[in_len + a] == sub_out@[a]);
                                    assert(all[in_len + a0] == inp);
                                    lemma_conn_survives(
                                        t0,
                                        sub,
                                        c1,
                                        ConnectionEndpoints { source_port: q1, target_port: sub_out@[a] },
                                        inp,
                                        c,
                                    );
                                    lemma_copied_port_kept(*self, outputs@[a].internal_port, t0, sub, q1);
                                    assert(sub.endpoints(c1) == Some(ConnectionEndpoints { source_port: q1, target_port: sub_out@[a] }));
                                }
                            }
                            assert forall|a: int|
                                0 <= a < m + 1 && a < inputs@.len() && (forall|a2: int|
                                    a < a2 < m + 1 && a2 < inputs@.len() ==> (#[trigger] inputs@[a2]).internal_port
                                        != inputs@[a].internal_port) implies #[trigger] wired_to_copy(
                                sub,
                                map@,
                                sub_in@[a],
                                inputs@[a].internal_port,
                            ) by {
                                assert(wired_to_copy(t0, map@, sub_in@[a], inputs@[a].internal_port));
                                let (c1, i1) = choose|c1: EntityId, i1: int|
                                    #![trigger t0.endpoints(c1), map@[i1]]
                                    0 <= i1 < map@.len() && map@[i1].0 == inputs@[a].internal_port && t0.endpoints(c1) == Some(
                                        ConnectionEndpoints { source_port: sub_in@[a], target_port: map@[i1].1 },
                                    );
                                assert(copied_port(*self, map@[i1].0, t0, map@[i1].1));
                                assert(map@[i1].1 != inp);
                                lemma_conn_survives(
                                    t0,
                                    sub,
                                    c1,
                                    ConnectionEndpoints { source_port: sub_in@[a], target_port: map@[i1].1 },
                                    inp,
                                    c,
                                );
                                assert(sub.endpoints(c1) == Some(ConnectionEndpoints { source_port: sub_in@[a], target_port: map@[i1].1 }));
                            }
                        }
                    },
                    None => {},
                }
            }
            proof {
                if sub != t0 {
                    lemma_subgraph_made_kept(*self, node_ids@, t0, sub, sub_in@, sub_out@, inputs@, outputs@, copies);
                    lemma_map_ok_kept(*self, node_ids@, t0, sub, map@);
                }
            }
            m = m + 1;
        }
        proof {
            assert forall|k1: int| #[trigger] last_internal(internal@, binding_pairs(inputs@), k1) implies copies_joined(
                *self,
                internal@[k1].0,
                internal@[k1].1,
                sub,
            ) by {
                assert(joined_via(sub, map@, internal@[k1].0, internal@[k1].1));
                let (i1, i2) = choose|i1: int, i2: int|
                    #![trigger map@[i1], map@[i2]]
                    0 <= i1 < map@.len() && 0 <= i2 < map@.len() && map@[i1].0 == internal@[k1].0 && map@[i2].0 == internal@[k1].1
                        && (sub.validation(map@[i1].1, map@[i2].1) matches Ok((o, i)) ==> exists|c: EntityId| sub.endpoints(c) == Some(
                        ConnectionEndpoints { source_port: o, target_port: i },
                    ));
                assert(copied_port(*self, map@[i1].0, sub, map@[i1].1));
                assert(copied_port(*self, map@[i2].0, sub, map@[i2].1));
            }
            assert forall|a: int|
                0 <= a < inputs@.len() && (forall|a2: int|
                    a < a2 < inputs@.len() ==> (#[trigger] inputs@[a2]).internal_port != inputs@[a].internal_port) implies #[trigger] feeds_copy(
                *self,
                inputs@[a].internal_port,
                sub,
                sub_in@[a],
            ) by {
                assert(wired_to_copy(sub, map@, sub_in@[a], inputs@[a].internal_port));
                let (c1, i1) = choose|c1: EntityId, i1: int|
                    #![trigger sub.endpoints(c1), map@[i1]]
                    0 <= i1 < map@.len() && map@[i1].0 == inputs@[a].internal_port && sub.endpoints(c1) == Some(
                        ConnectionEndpoints { source_port: sub_in@[a], target_port: map@[i1].1 },
                    );
                assert(copied_port(*self, map@[i1].0, sub, map@[i1].1));
            }
            assert forall|k: int| 0 <= k < node_ids@.len() implies has_copy(*self, #[trigger] node_ids@[k], sub) by {
                assert(copies_node(*self, node_ids@[k], sub, copies[k]));
            }
        }
        (sub, sub_in, sub_out)
    }

    /// Remove each node of `node_ids` that is neither a port nor a
    /// connection, with its ports and their connections.
    pub(crate) fn remove_selected(&mut self, node_ids: &[EntityId])
        requires
            old(self).wf(),
        ensures
            final(self).wf(),
            forall|k: int|
                0 <= k < node_ids@.len() && old(self).wd().alive(node_ids@[k]) && old(self).owner_of(node_ids@[k])
                    is None && old(self).endpoints(node_ids@[k]) is None ==> !final(self).wd().alive(
                    #[trigger] node_ids@[k],
                ),
            forall|e: EntityId|
                old(self).wd().alive(e) && !node_ids@.contains(e) && old(self).owner_of(e) is None && old(
                    self,
                ).endpoints(e) is None ==> {
                    &&& #[trigger] final(self).wd().alive(e)
                    &&& final(self).wd().comp::<NodeHeader>(e) == old(self).wd().comp::<NodeHeader>(e)
                    &&& final(self).wd().comp::<SubgraphRoot>(e) == old(self).wd().comp::<SubgraphRoot>(e)
                },
            forall|p: EntityId|
                old(self).owner_of(p) matches Some(o) && !node_ids@.contains(o) ==> {
                    &&& #[trigger] final(self).wd().alive(p)
                    &&& same_port_data(*old(self), *final(self), p)
                    &&& final(self).wd().comp::<PortLabel>(p) == old(self).wd().comp::<PortLabel>(p)
                },
            forall|n: EntityId| !node_ids@.contains(n) ==> #[trigger] final(self).ports_of(n) == old(self).ports_of(n),
            forall|c: EntityId|
                old(self).endpoints(c) matches Some(ep) && !inside(*old(self), ep.source_port, node_ids@) && !inside(
                    *old(self),
                    ep.target_port,
                    node_ids@,
                ) ==> #[trigger] final(self).endpoints(c) == old(self).endpoints(c),
            forall|e: EntityId|
                #[trigger] final(self).wd().alive(e) ==> old(self).wd().alive(e) && final(self).owner_of(e) == old(self).owner_of(e)
                    && final(self).endpoints(e) == old(self).endpoints(e),
    {
        let mut i: usize = 0;
        while i < node_ids.len()
            invariant
                self.wf(),
                old(self).wf(),
                i <= node_ids@.len(),
                forall|k: int|
                    0 <= k < i && old(self).wd().alive(node_ids@[k]) && old(self).owner_of(node_ids@[k]) is None
                        && old(self).endpoints(node_ids@[k]) is None ==> !self.wd().alive(#[trigger] node_ids@[k]),
                forall|e: EntityId|
                    #[trigger] self.wd().alive(e) ==> old(self).wd().alive(e) && self.owner_of(e) == old(self).owner_of(e)
                        && self.endpoints(e) == old(self).endpoints(e),
                forall|e: EntityId|
                    old(self).wd().alive(e) && !node_ids@.contains(e) && old(self).owner_of(e) is None && old(
                        self,
                    ).endpoints(e) is None ==> {
                        &&& #[trigger] self.wd().alive(e)
                        &&& self.wd().comp::<NodeHeader>(e) == old(self).wd().comp::<NodeHeader>(e)
                        &&& self.wd().comp::<SubgraphRoot>(e) == old(self).wd().comp::<SubgraphRoot>(e)
                    },
                forall|p: EntityId|
                    old(self).owner_of(p) matches Some(o) && !node_ids@.contains(o) ==> {
                        &&& #[trigger] self.wd().alive(p)
                        &&& same_port_data(*old(self), *self, p)
                        &&& self.wd().comp::<PortLabel>(p) == old(self).wd().comp::<PortLabel>(p)
                    },
                forall|n: EntityId| !node_ids@.contains(n) ==> #[trigger] self.ports_of(n) == old(self).ports_of(n),
                forall|c: EntityId|
                    old(self).endpoints(c) matches Some(ep) && !inside(*old(self), ep.source_port, node_ids@) && !inside(
                        *old(self),
                        ep.target_port,
                        node_ids@,
                    ) ==> #[trigger] self.endpoints(c) == old(self).endpoints(c),
            decreases node_ids.len() - i,
        {
            let nid = node_ids[i];
            if self.world.get::<PortOwner>(nid).is_none() && self.world.get::<ConnectionEndpoints>(nid).is_none() {
                let ghost w0 = *self;
                self.remove_node(nid);
                proof {
                    let ks = set![ComponentKind::FrameMembers];
                    assert(node_ids@.contains(nid)) by {
                        assert(node_ids@[i as int] == nid);
                    }
                    assert forall|e: EntityId| #[trigger] self.wd().alive(e) implies w0.wd().alive(e) && self.owner_of(e)
                        == w0.owner_of(e) && self.endpoints(e) == w0.endpoints(e) by {
                        if e == nid || w0.ports_of(nid).contains(e) || w0.touches_node(nid, e) {
                        } else {
                            assert(self.wd().alive(e) == w0.wd().alive(e));
                        }
                        self.wd().lemma_comp_kept::<PortOwner>(&w0.wd(), ks, e);
                        self.wd().lemma_comp_kept::<ConnectionEndpoints>(&w0.wd(), ks, e);
                    }
                    assert forall|e: EntityId|
                        old(self).wd().alive(e) && !node_ids@.contains(e) && old(self).owner_of(e) is None && old(
                            self,
                        ).endpoints(e) is None implies {
                            &&& #[trigger] self.wd().alive(e)
                            &&& self.wd().comp::<NodeHeader>(e) == old(self).wd().comp::<NodeHeader>(e)
                            &&& self.wd().comp::<SubgraphRoot>(e) == old(self).wd().comp::<SubgraphRoot>(e)
                        } by {
                        assert(w0.wd().alive(e));
                        assert(e != nid);
                        if w0.ports_of(nid).contains(e) {
                            assert(w0.owner_of(e) == Some(nid));
                        }
                        assert(!w0.touches_node(nid, e));
                        self.wd().lemma_comp_kept::<NodeHeader>(&w0.wd(), ks, e);
                        self.wd().lemma_comp_kept::<SubgraphRoot>(&w0.wd(), ks, e);
                    }
                    assert forall|p: EntityId| old(self).owner_of(p) matches Some(o) && !node_ids@.contains(o) implies {
                        &&& #[trigger] self.wd().alive(p)
                        &&& same_port_data(*old(self), *self, p)
                        &&& self.wd().comp::<PortLabel>(p) == old(self).wd().comp::<PortLabel>(p)
                    } by {
                        let o = old(self).owner_of(p)->0;
                        assert(w0.wd().alive(p));
                        assert(w0.owner_of(p) == Some(o));
                        assert(p != nid);
                        if w0.ports_of(nid).contains(p) {
                            assert(w0.owner_of(p) == Some(nid));
                        }
                        assert(w0.endpoints(p) is None);
                        assert(!w0.touches_node(nid, p));
                        assert(self.wd().alive(p));
                        self.wd().lemma_comp_kept::<PortOwner>(&w0.wd(), ks, p);
                        self.wd().lemma_comp_kept::<PortDirection>(&w0.wd(), ks, p);
                        self.wd().lemma_comp_kept::<PortSocketType>(&w0.wd(), ks, p);
                        self.wd().lemma_comp_kept::<PortLabel>(&w0.wd(), ks, p);
                    }
                    assert forall|n: EntityId| !node_ids@.contains(n) implies #[trigger] self.ports_of(n) == old(self).ports_of(n) by {
                        assert(n != nid);
                        assert(w0.ports_of(n) == old(self).ports_of(n));
                    }
                    assert forall|c: EntityId|
                        old(self).endpoints(c) matches Some(ep) && !inside(*old(self), ep.source_port, node_ids@) && !inside(
                            *old(self),
                            ep.target_port,
                            node_ids@,
                        ) implies #[trigger] self.endpoints(c) == old(self).endpoints(c) by {
                        let ep = old(self).endpoints(c)->0;
                        assert(w0.endpoints(c) == old(self).endpoints(c));
                        assert(w0.wd().alive(c));
                        assert(old(self).owner_of(ep.source_port) is Some && old(self).owner_of(ep.target_port) is Some);
                        assert(w0.owner_of(ep.source_port) == old(self).owner_of(ep.source_port));
                        assert(w0.owner_of(ep.target_port) == old(self).owner_of(ep.target_port));
                        assert(!w0.touches_node(nid, c));
                        assert(c != nid);
                        if w0.ports_of(nid).contains(c) {
                            assert(w0.owner_of(c) == Some(nid));
                        }
                        assert(self.wd().alive(c));
                        self.wd().lemma_comp_kept::<ConnectionEndpoints>(&w0.wd(), ks, c);
                    }
                }
            }
            i = i + 1;
        }
    }

    /// The connections on the ports of group node `g`: (outside source, group
    /// input port) for its input ports and (group output port, outside
    /// target) for its output ports.
    pub(crate) fn group_port_links(&self, g: EntityId) -> (r: (Vec<(EntityId, EntityId)>, Vec<(EntityId, EntityId)>))
        requires
            self.wf(),
        ensures
            r.0@.len() + r.1@.len() <= conn_total(*self, self.ports_of(g)),
            forall|i: int|
                0 <= i < r.0@.len() ==> self.ports_of(g).contains((#[trigger] r.0@[i]).1) && self.dir_of(r.0@[i].1) == Some(
                    PortDirection::Input,
                ) && exists|c: EntityId|
                    #[trigger] self.endpoints(c) == Some(ConnectionEndpoints { source_port: r.0@[i].0, target_port: r.0@[i].1 }),
            forall|i: int|
                0 <= i < r.1@.len() ==> self.ports_of(g).contains((#[trigger] r.1@[i]).0) && self.dir_of(r.1@[i].0) == Some(
                    PortDirection::Output,
                ) && exists|c: EntityId|
                    #[trigger] self.endpoints(c) == Some(ConnectionEndpoints { source_port: r.1@[i].0, target_port: r.1@[i].1 }),
            forall|c: EntityId|
                #[trigger] self.endpoints(c) is Some ==> {
                    let ep = self.endpoints(c)->0;
                    &&& self.ports_of(g).contains(ep.target_port) ==> r.0@.contains((ep.source_port, ep.target_port))
                    &&& self.ports_of(g).contains(ep.source_port) ==> r.1@.contains((ep.source_port, ep.target_port))
                },
    {
        let mut inputs: Vec<(EntityId, EntityId)> = Vec::new();
        let mut outputs: Vec<(EntityId, EntityId)> = Vec::new();
        let ports = self.node_ports(g);
        let mut j: usize = 0;
        while j < ports.len()
            invariant
                self.wf(),
                ports@ == self.ports_of(g),
                j <= ports@.len(),
                inputs@.len() + outputs@.len() <= conn_total(*self, ports@.subrange(0, j as int)),
                forall|i: int|
                    0 <= i < inputs@.len() ==> self.ports_of(g).contains((#[trigger] inputs@[i]).1) && self.dir_of(inputs@[i].1)
                        == Some(PortDirection::Input) && exists|c: EntityId|
                        #[trigger] self.endpoints(c) == Some(ConnectionEndpoints { source_port: inputs@[i].0, target_port: inputs@[i].1 }),
                forall|i: int|
                    0 <= i < outputs@.len() ==> self.ports_of(g).contains((#[trigger] outputs@[i]).0) && self.dir_of(outputs@[i].0)
                        == Some(PortDirection::Output) && exists|c: EntityId|
                        #[trigger] self.endpoints(c) == Some(ConnectionEndpoints { source_port: outputs@[i].0, target_port: outputs@[i].1 }),
                forall|j2: int, c: EntityId|
                    0 <= j2 < j && #[trigger] self.conns_of(ports@[j2]).contains(c) ==> {
                        let ep = self.endpoints(c)->0;
                        &&& ep.target_port == ports@[j2] ==> inputs@.contains((ep.source_port, ep.target_port))
                        &&& ep.source_port == ports@[j2] ==> outputs@.contains((ep.source_port, ep.target_port))
                    },
            decreases ports.len() - j,
        {
            let pid = ports[j];
            let dir: Option<PortDirection> = match self.world.get::<PortDirection>(pid) {
                Some(d) => Some(*d),
                None => None,
            };
            let conns = self.port_connections(pid);
            let mut k: usize = 0;
            while k < conns.len()
                invariant
                    self.wf(),
                    j < ports@.len(),
                    ports@ == self.ports_of(g),
                    pid == ports@[j as int],
                    dir == self.dir_of(pid),
                    conns@ == self.conns_of(ports@[j as int]),
                    k <= conns@.len(),
                    inputs@.len() + outputs@.len() <= conn_total(*self, ports@.subrange(0, j as int)) + k,
                    forall|i: int|
                        0 <= i < inputs@.len() ==> self.ports_of(g).contains((#[trigger] inputs@[i]).1) && self.dir_of(
                            inputs@[i].1,
                        ) == Some(PortDirection::Input) && exists|c: EntityId|
                            #[trigger] self.endpoints(c) == Some(ConnectionEndpoints { source_port: inputs@[i].0, target_port: inputs@[i].1 }),
                    forall|i: int|
                        0 <= i < outputs@.len() ==> self.ports_of(g).contains((#[trigger] outputs@[i]).0) && self.dir_of(
                            outputs@[i].0,
                        ) == Some(PortDirection::Output) && exists|c: EntityId|
                            #[trigger] self.endpoints(c) == Some(ConnectionEndpoints { source_port: outputs@[i].0, target_port: outputs@[i].1 }),
                    forall|j2: int, c: EntityId|
                        0 <= j2 < j && #[trigger] self.conns_of(ports@[j2]).contains(c) ==> {
                            let ep = self.endpoints(c)->0;
                            &&& ep.target_port == ports@[j2] ==> inputs@.contains((ep.source_port, ep.target_port))
                            &&& ep.source_port == ports@[j2] ==> outputs@.contains((ep.source_port, ep.target_port))
                        },
                    forall|k2: int|
                        0 <= k2 < k ==> {
                            let ep = self.endpoints(#[trigger] conns@[k2])->0;
                            &&& ep.target_port == pid ==> inputs@.contains((ep.source_port, ep.target_port))
                            &&& ep.source_port == pid ==> outputs@.contains((ep.source_port, ep.target_port))
                        },
                decreases conns.len() - k,
            {
                let ghost in0 = inputs@;
                let ghost out0 = outputs@;
                let ghost c = conns@[k as int];
                proof {
                    assert(self.conns_of(pid).contains(c));
                }
                match self.world.get::<ConnectionEndpoints>(conns[k]) {
                    Some(ep) => {
                        proof {
                            assert(ep.source_port == pid || ep.target_port == pid);
                            assert(ports@.contains(pid));
                        }
                        match dir {
                            Some(PortDirection::Input) => {
                                inputs.push((ep.source_port, pid));
                                proof {
                                    assert(ep.target_port == pid);
                                    assert(inputs@[inputs@.len() - 1] == (ep.source_port, pid));
                                }
                            },
                            Some(PortDirection::Output) => {
                                outputs.push((pid, ep.target_port));
                                proof {
                                    assert(ep.source_port == pid);
                                    assert(outputs@[outputs@.len() - 1] == (pid, ep.target_port));
                                }
                            },
                            None => {},
                        }
                    },
                    None => {},
                }
                proof {
                    assert forall|x: (EntityId, EntityId)| in0.contains(x) implies inputs@.contains(x) by {
                        let i = choose|i: int| 0 <= i < in0.len() && in0[i] == x;
                        assert(inputs@[i] == x);
                    }
                    assert forall|x: (EntityId, EntityId)| out0.contains(x) implies outputs@.contains(x) by {
                        let i = choose|i: int| 0 <= i < out0.len() && out0[i] == x;
                        assert(outputs@[i] == x);
                    }
                    assert forall|i: int| 0 <= i < inputs@.len() implies self.ports_of(g).contains((#[trigger] inputs@[i]).1)
                        && self.dir_of(inputs@[i].1) == Some(PortDirection::Input) && exists|c2: EntityId|
                        #[trigger] self.endpoints(c2) == Some(ConnectionEndpoints { source_port: inputs@[i].0, target_port: inputs@[i].1 }) by {
                        if i < in0.len() {
                            assert(inputs@[i] == in0[i]);
                        } else {
                            assert(self.endpoints(c) == Some(ConnectionEndpoints { source_port: inputs@[i].0, target_port: inputs@[i].1 }));
                        }
                    }
                    assert forall|i: int| 0 <= i < outputs@.len() implies self.ports_of(g).contains((#[trigger] outputs@[i]).0)
                        && self.dir_of(outputs@[i].0) == Some(PortDirection::Output) && exists|c2: EntityId|
                        #[trigger] self.endpoints(c2) == Some(ConnectionEndpoints { source_port: outputs@[i].0, target_port: outputs@[i].1 }) by {
                        if i < out0.len() {
                            assert(outputs@[i] == out0[i]);
                        } else {
                            assert(self.endpoints(c) == Some(ConnectionEndpoints { source_port: outputs@[i].0, target_port: outputs@[i].1 }));
                        }
                    }
                }
                k = k + 1;
            }
            proof {
                lemma_conn_total_step(*self, ports@, j as int);
                assert forall|j2: int, c: EntityId|
                    0 <= j2 < j + 1 && #[trigger] self.conns_of(ports@[j2]).contains(c) implies {
                        let ep = self.endpoints(c)->0;
                        &&& ep.target_port == ports@[j2] ==> inputs@.contains((ep.source_port, ep.target_port))
                        &&& ep.source_port == ports@[j2] ==> outputs@.contains((ep.source_port, ep.target_port))
                    } by {
                    if j2 == j {
                        let k2 = choose|k2: int| 0 <= k2 < conns@.len() && conns@[k2] == c;
                        assert(conns@[k2] == c);
                    }
                }
            }
            j = j + 1;
        }
        proof {
            assert(ports@.subrange(0, j as int) =~= ports@);
            assert forall|c: EntityId| #[trigger] self.endpoints(c) is Some implies {
                let ep = self.endpoints(c)->0;
                &&& self.ports_of(g).contains(ep.target_port) ==> inputs@.contains((ep.source_port, ep.target_port))
                &&& self.ports_of(g).contains(ep.source_port) ==> outputs@.contains((ep.source_port, ep.target_port))
            } by {
                let ep = self.endpoints(c)->0;
                if self.ports_of(g).contains(ep.target_port) {
                    let j2 = choose|j2: int| 0 <= j2 < ports@.len() && ports@[j2] == ep.target_port;
                    assert(self.conns_of(ports@[j2]).contains(c));
                }
                if self.ports_of(g).contains(ep.source_port) {
                    let j2 = choose|j2: int| 0 <= j2 < ports@.len() && ports@[j2] == ep.source_port;
                    assert(self.conns_of(ports@[j2]).contains(c));
                }
            }
        }
        (inputs, outputs)
    }

    /// Copies of the nodes that are not Group Input or Group Output nodes,
    /// with their ports.
    pub(crate) fn node_copies(&self) -> (r: Vec<NodeCopy<F>>)
        requires
            self.wf(),
        ensures
            r@.len() + copy_port_total(r@) <= 2 * self.wd().allocator_spec().gens().len(),
            forall|n: EntityId|
                self.wd().comp::<NodeHeader>(n) is Some && self.wd().comp::<GroupIOKind>(n) is None ==> #[trigger] described_in(
                    *self,
                    n,
                    r@,
                ),
            forall|i: int| 0 <= i < r@.len() ==> copy_of_regular(*self, #[trigger] r@[i]),
    {
        let q = self.world.query::<NodeHeader>();
        let mut copies: Vec<NodeCopy<F>> = Vec::new();
        let ghost mut seen_nodes: Seq<EntityId> = Seq::empty();
        let ghost mut seen_ports: Seq<EntityId> = Seq::empty();
        let zero = F::default();
        let mut k: usize = 0;
        while k < q.len()
            invariant
                self.wf(),
                k <= q@.len(),
                forall|a: int| 0 <= a < q@.len() ==> self.wd().comp::<NodeHeader>(#[trigger] q@[a].0) == Some(*q@[a].1),
                forall|a: int, b: int| 0 <= a < b < q@.len() ==> (#[trigger] q@[a].0).index < (#[trigger] q@[b].0).index,
                seen_nodes.no_duplicates(),
                forall|i: int| 0 <= i < seen_nodes.len() ==> exists|a: int| 0 <= a < k && #[trigger] q@[a].0 == #[trigger] seen_nodes[i],
                forall|i: int| 0 <= i < seen_nodes.len() ==> self.wd().alive(#[trigger] seen_nodes[i]),
                seen_ports.no_duplicates(),
                forall|i: int| 0 <= i < seen_ports.len() ==> self.wd().alive(#[trigger] seen_ports[i]),
                forall|i: int|
                    0 <= i < seen_ports.len() ==> self.owner_of(#[trigger] seen_ports[i]) is Some && seen_nodes.contains(
                        self.owner_of(seen_ports[i])->0,
                    ),
                copies@.len() == seen_nodes.len(),
                copy_port_total(copies@) == seen_ports.len(),
                forall|i: int| 0 <= i < copies@.len() ==> copy_of_regular(*self, #[trigger] copies@[i]),
                forall|a: int|
                    0 <= a < k && self.wd().comp::<GroupIOKind>(#[trigger] q@[a].0) is None ==> described_in(
                        *self,
                        q@[a].0,
                        copies@,
                    ),
            decreases q.len() - k,
        {
            let nid = q[k].0;
            if self.world.get::<GroupIOKind>(nid).is_none() {
                proof {
                    assert(!seen_nodes.contains(nid)) by {
                        if seen_nodes.contains(nid) {
                            let i = choose|i: int| 0 <= i < seen_nodes.len() && seen_nodes[i] == nid;
                            let a = choose|a: int| 0 <= a < k && #[trigger] q@[a].0 == seen_nodes[i];
                            assert(q@[a].0.index < q@[k as int].0.index);
                        }
                    }
                }
                let pos = match self.world.get::<NodePosition<F>>(nid) {
                    Some(p) => (p.x, p.y),
                    None => (zero, zero),
                };
                let ports = self.node_ports(nid);
                let mut port_copies: Vec<PortCopy> = Vec::new();
                let ghost ports_before = seen_ports;
                let mut j: usize = 0;
                while j < ports.len()
                    invariant
                        self.wf(),
                        ports@ == self.ports_of(nid),
                        j <= ports@.len(),
                        port_copies@.len() == j,
                        seen_ports == ports_before + ports@.subrange(0, j as int),
                        forall|i: int|
                            0 <= i < ports_before.len() ==> self.owner_of(#[trigger] ports_before[i]) is Some
                                && seen_nodes.contains(self.owner_of(ports_before[i])->0),
                        !seen_nodes.contains(nid),
                        ports_before.no_duplicates(),
                        forall|i: int|
                            0 <= i < j ==> {
                                let pc = #[trigger] port_copies@[i];
                                let p = ports@[i];
                                &&& pc.direction == look_dir(*self, p)
                                &&& pc.socket_type == look_type(*self, p)
                                &&& pc.label@ == look_label(*self, p)
                                &&& pc.source == p
                            },
                    decreases ports.len() - j,
                {
                    let pid = ports[j];
                    let dir = match self.world.get::<PortDirection>(pid) {
                        Some(d) => *d,
                        None => PortDirection::Input,
                    };
                    let (st, label) = self.port_look(pid);
                    port_copies.push(PortCopy { direction: dir, socket_type: st, label, source: pid });
                    proof {
                        seen_ports = seen_ports.push(pid);
                        assert(ports@.subrange(0, j as int + 1) =~= ports@.subrange(0, j as int).push(pid));
                    }
                    j = j + 1;
                }
                proof {
                    assert(ports@.subrange(0, j as int) =~= ports@);
                    assert(seen_ports.no_duplicates()) by {
                        let pb = ports_before.len() as int;
                        assert(ports@.no_duplicates());
                        assert forall|a: int| 0 <= a < seen_ports.len() implies #[trigger] seen_ports[a] == (if a < pb {
                            ports_before[a]
                        } else {
                            ports@[a - pb]
                        }) by {}
                        assert forall|a: int, b: int| 0 <= a < b < seen_ports.len() implies seen_ports[a] != seen_ports[b] by {
                            if b < pb {
                                assert(ports_before[a] != ports_before[b]);
                            } else if a < pb {
                                let p = ports@[b - pb];
                                assert(ports@.contains(p));
                                assert(self.owner_of(p) == Some(nid));
                                let o = self.owner_of(ports_before[a]);
                                assert(o is Some && seen_nodes.contains(o->0));
                            } else {
                                assert(ports@[a - pb] != ports@[b - pb]);
                            }
                        }
                    }
                    assert forall|i: int| 0 <= i < seen_ports.len() implies self.wd().alive(#[trigger] seen_ports[i]) by {
                        if i >= ports_before.len() {
                            assert(ports@.contains(seen_ports[i]));
                            assert(self.owner_of(seen_ports[i]) is Some);
                        }
                    }
                }
                let header = q[k].1.clone();
                let ghost c0 = copies@;
                copies.push(NodeCopy { header, position: pos, ports: port_copies });
                proof {
                    assert(copies@.drop_last() =~= c0);
                    let last = copies@.len() - 1;
                    assert(describes(*self, nid, copies@[last]));
                    assert(regular_node(*self, nid));
                    assert(self.wd().alive(nid));
                    assert forall|i: int| 0 <= i < copies@.len() implies copy_of_regular(*self, #[trigger] copies@[i]) by {
                        if i < last {
                            assert(copies@[i] == c0[i]);
                        }
                    }
                    assert forall|a: int|
                        0 <= a < k + 1 && self.wd().comp::<GroupIOKind>(#[trigger] q@[a].0) is None implies described_in(
                        *self,
                        q@[a].0,
                        copies@,
                    ) by {
                        if a < k {
                            let i = choose|i: int| 0 <= i < c0.len() && describes(*self, q@[a].0, #[trigger] c0[i]);
                            assert(copies@[i] == c0[i]);
                        } else {
                            assert(describes(*self, q@[a].0, copies@[last]));
                        }
                    }
                    let sn0 = seen_nodes;
                    seen_nodes = seen_nodes.push(nid);
                    assert forall|i: int|
                        0 <= i < seen_ports.len() implies self.owner_of(#[trigger] seen_ports[i]) is Some && seen_nodes.contains(
                            self.owner_of(seen_ports[i])->0,
                        ) by {
                        if i < ports_before.len() {
                            assert(seen_ports[i] == ports_before[i]);
                            let o = self.owner_of(ports_before[i])->0;
                            let t = choose|t: int| 0 <= t < sn0.len() && sn0[t] == o;
                            assert(seen_nodes[t] == o);
                        } else {
                            assert(ports@.contains(seen_ports[i]));
                            assert(seen_nodes[seen_nodes.len() - 1] == nid);
                        }
                    }
                    assert forall|i: int| 0 <= i < seen_nodes.len() implies exists|a: int| 0 <= a < k + 1 && #[trigger] q@[a].0 == #[trigger] seen_nodes[i] by {
                        if i < sn0.len() {
                            assert(seen_nodes[i] == sn0[i]);
                        } else {
                            assert(q@[k as int].0 == seen_nodes[i]);
                        }
                    }
                    assert forall|i: int| 0 <= i < seen_nodes.len() implies self.wd().alive(#[trigger] seen_nodes[i]) by {
                        if i < sn0.len() {
                            assert(seen_nodes[i] == sn0[i]);
                        }
                    }
                }
            }
            k = k + 1;
        }
        proof {
            self.wd().lemma_alive_bound(seen_nodes);
            self.wd().lemma_alive_bound(seen_ports);
            assert forall|n: EntityId|
                self.wd().comp::<NodeHeader>(n) is Some && self.wd().comp::<GroupIOKind>(n) is None implies #[trigger] described_in(
                *self,
                n,
                copies@,
            ) by {
                let a = choose|a: int| 0 <= a < q@.len() && #[trigger] q@[a].0 == n;
                assert(self.wd().comp::<GroupIOKind>(q@[a].0) is None);
            }
        }
        copies
    }

    /// The (source, target) port pairs of all connections, and for each
    /// connection between a Group Input or Group Output port and another
    /// node's port, the pair (IO port, other port).
    pub(crate) fn connection_pairs(&self) -> (r: (Vec<(EntityId, EntityId)>, Vec<(EntityId, EntityId)>))
        requires
            self.wf(),
        ensures
            r.0@.len() <= self.wd().allocator_spec().gens().len(),
            forall|i: int|
                0 <= i < r.0@.len() ==> exists|c: EntityId|
                    #[trigger] self.endpoints(c) == Some(
                        ConnectionEndpoints { source_port: (#[trigger] r.0@[i]).0, target_port: r.0@[i].1 },
                    ),
            forall|c: EntityId|
                #[trigger] self.endpoints(c) matches Some(ep) ==> r.0@.contains((ep.source_port, ep.target_port)),
            forall|i: int|
                0 <= i < r.1@.len() ==> io_side(*self, (#[trigger] r.1@[i]).0) && !io_side(*self, r.1@[i].1) && exists|c: EntityId|
                    #[trigger] self.endpoints(c) == Some(ConnectionEndpoints { source_port: r.1@[i].0, target_port: r.1@[i].1 })
                        || self.endpoints(c) == Some(ConnectionEndpoints { source_port: r.1@[i].1, target_port: r.1@[i].0 }),
            forall|c: EntityId|
                #[trigger] self.endpoints(c) matches Some(ep) ==> {
                    &&& io_side(*self, ep.source_port) && !io_side(*self, ep.target_port) ==> r.1@.contains(
                        (ep.source_port, ep.target_port),
                    )
                    &&& io_side(*self, ep.target_port) && !io_side(*self, ep.source_port) ==> r.1@.contains(
                        (ep.target_port, ep.source_port),
                    )
                },
    {
        let q = self.world.query::<ConnectionEndpoints>();
        let mut pairs: Vec<(EntityId, EntityId)> = Vec::new();
        let mut io_links: Vec<(EntityId, EntityId)> = Vec::new();
        let mut k: usize = 0;
        while k < q.len()
            invariant
                self.wf(),
                k <= q@.len(),
                pairs@.len() == k,
                forall|a: int| 0 <= a < q@.len() ==> self.wd().comp::<ConnectionEndpoints>(#[trigger] q@[a].0) == Some(*q@[a].1),
                forall|a: int| 0 <= a < k ==> #[trigger] pairs@[a] == (q@[a].1.source_port, q@[a].1.target_port),
                forall|i: int|
                    0 <= i < io_links@.len() ==> io_side(*self, (#[trigger] io_links@[i]).0) && !io_side(*self, io_links@[i].1)
                        && exists|c: EntityId|
                        #[trigger] self.endpoints(c) == Some(ConnectionEndpoints { source_port: io_links@[i].0, target_port: io_links@[i].1 })
                            || self.endpoints(c) == Some(ConnectionEndpoints { source_port: io_links@[i].1, target_port: io_links@[i].0 }),
                forall|a: int|
                    0 <= a < k ==> {
                        let ep = *(#[trigger] q@[a]).1;
                        &&& io_side(*self, ep.source_port) && !io_side(*self, ep.target_port) ==> io_links@.contains(
                            (ep.source_port, ep.target_port),
                        )
                        &&& io_side(*self, ep.target_port) && !io_side(*self, ep.source_port) ==> io_links@.contains(
                            (ep.target_port, ep.source_port),
                        )
                    },
            decreases q.len() - k,
        {
            let ep = q[k].1;
            let ghost links0 = io_links@;
            let ghost c = q@[k as int].0;
            pairs.push((ep.source_port, ep.target_port));
            let src_io = match self.world.get::<PortOwner>(ep.source_port) {
                Some(o) => self.world.get::<GroupIOKind>(o.0).is_some(),
                None => false,
            };
            let tgt_io = match self.world.get::<PortOwner>(ep.target_port) {
                Some(o) => self.world.get::<GroupIOKind>(o.0).is_some(),
                None => false,
            };
            if src_io && !tgt_io {
                io_links.push((ep.source_port, ep.target_port));
            }
            if tgt_io && !src_io {
                io_links.push((ep.target_port, ep.source_port));
            }
            proof {
                assert(self.endpoints(c) == Some(*ep));
                assert(src_io == io_side(*self, ep.source_port));
                assert(tgt_io == io_side(*self, ep.target_port));
                assert forall|x: (EntityId, EntityId)| links0.contains(x) implies io_links@.contains(x) by {
                    let i = choose|i: int| 0 <= i < links0.len() && links0[i] == x;
                    assert(io_links@[i] == x);
                }
                assert forall|i: int| 0 <= i < io_links@.len() implies io_side(*self, (#[trigger] io_links@[i]).0) && !io_side(
                    *self,
                    io_links@[i].1,
                ) && exists|c2: EntityId|
                    #[trigger] self.endpoints(c2) == Some(ConnectionEndpoints { source_port: io_links@[i].0, target_port: io_links@[i].1 })
                        || self.endpoints(c2) == Some(ConnectionEndpoints { source_port: io_links@[i].1, target_port: io_links@[i].0 }) by {
                    if i < links0.len() {
                        assert(io_links@[i] == links0[i]);
                    } else {
                        assert(self.endpoints(c) == Some(*ep));
                    }
                }
                if src_io && !tgt_io {
                    assert(io_links@.last() == (ep.source_port, ep.target_port));
                    assert(io_links@.contains((ep.source_port, ep.target_port)));
                }
                if tgt_io && !src_io {
                    assert(io_links@.last() == (ep.target_port, ep.source_port));
                    assert(io_links@.contains((ep.target_port, ep.source_port)));
                }
            }
            k = k + 1;
        }
        proof {
            let ids = Seq::new(q@.len(), |i: int| q@[i].0);
            assert(ids.no_duplicates()) by {
                assert forall|a: int, b: int| 0 <= a < ids.len() && 0 <= b < ids.len() && a != b implies ids[a] != ids[b] by {
                    if a < b {
                        assert(q@[a].0.index < q@[b].0.index);
                    } else {
                        assert(q@[b].0.index < q@[a].0.index);
                    }
                }
            }
            assert forall|i: int| 0 <= i < ids.len() implies self.wd().alive(#[trigger] ids[i]) by {
                assert(self.wd().comp::<ConnectionEndpoints>(q@[i].0) == Some(*q@[i].1));
            }
            self.wd().lemma_alive_bound(ids);
            assert forall|i: int| 0 <= i < pairs@.len() implies exists|c: EntityId|
                #[trigger] self.endpoints(c) == Some(
                    ConnectionEndpoints { source_port: (#[trigger] pairs@[i]).0, target_port: pairs@[i].1 },
                ) by {
                assert(self.endpoints(q@[i].0) == Some(*q@[i].1));
            }
            assert forall|c: EntityId| #[trigger] self.endpoints(c) is Some implies {
                let ep = self.endpoints(c)->0;
                &&& pairs@.contains((ep.source_port, ep.target_port))
                &&& io_side(*self, ep.source_port) && !io_side(*self, ep.target_port) ==> io_links@.contains(
                    (ep.source_port, ep.target_port),
                )
                &&& io_side(*self, ep.target_port) && !io_side(*self, ep.source_port) ==> io_links@.contains(
                    (ep.target_port, ep.source_port),
                )
            } by {
                assert(self.wd().comp::<ConnectionEndpoints>(c) is Some);
                let a = choose|a: int| 0 <= a < q@.len() && #[trigger] q@[a].0 == c;
                assert(pairs@[a] == (q@[a].1.source_port, q@[a].1.target_port));
            }
        }
        (pairs, io_links)
    }

    /// Recreate the node copies `copies` with their ports, then connect the
    /// recreated ports for each (source, target) pair of `pairs` whose two
    /// ports were both recreated. Returns the pairs (copied port, new port).
    pub(crate) fn restore_copies(
        &mut self,
        copies: &Vec<NodeCopy<F>>,
        pairs: &Vec<(EntityId, EntityId)>,
        Ghost(sg): Ghost<NodeGraph<F>>,
    ) -> (r: Vec<(EntityId, EntityId)>)
        requires
            old(self).wf(),
            old(self).wd().room() >= copies@.len() + copy_port_total(copies@) + pairs@.len(),
            forall|i: int| 0 <= i < copies@.len() ==> copy_of_regular(sg, #[trigger] copies@[i]),
            forall|k: int|
                0 <= k < pairs@.len() ==> sg.dir_of((#[trigger] pairs@[k]).0) == Some(PortDirection::Output) && sg.dir_of(
                    pairs@[k].1,
                ) == Some(PortDirection::Input),
        ensures
            map_ok(sg, Seq::empty(), *final(self), r@),
            forall|a: int|
                0 <= a < r@.len() ==> (final(self).owner_of((#[trigger] r@[a]).1) matches Some(o) && !old(self).wd().alive(o)),
            forall|i: int, j: int|
                0 <= i < copies@.len() && 0 <= j < copies@[i].ports@.len() ==> mapped(r@, #[trigger] copies@[i].ports@[j].source),
            forall|k: int|
                0 <= k < pairs@.len() && pair_open(r@, pairs@, k, pairs@.len() as int) ==> joined_via(
                    *final(self),
                    r@,
                    (#[trigger] pairs@[k]).0,
                    pairs@[k].1,
                ),
            final(self).wf(),
            final(self).wd().room() >= old(self).wd().room() - (copies@.len() + copy_port_total(copies@) + pairs@.len()),
            final(self).wd().allocator_spec().offset() == old(self).wd().allocator_spec().offset(),
            forall|e: EntityId|
                old(self).wd().alive(e) && old(self).endpoints(e) is None ==> {
                    &&& #[trigger] final(self).wd().alive(e)
                    &&& final(self).owner_of(e) == old(self).owner_of(e)
                    &&& final(self).dir_of(e) == old(self).dir_of(e)
                    &&& final(self).endpoints(e) is None
                },
            forall|i: int| 0 <= i < copies@.len() ==> #[trigger] has_fresh_restored(copies@[i], *final(self), *old(self)),
            forall|c: EntityId| old(self).endpoints(c) is Some ==> #[trigger] final(self).endpoints(c) == old(self).endpoints(c),
            forall|a: int| 0 <= a < r@.len() ==> !old(self).wd().alive((#[trigger] r@[a]).1),
    {
        let mut map: Vec<(EntityId, EntityId)> = Vec::new();
        let ghost mut made: Seq<EntityId> = Seq::empty();
        let mut i: usize = 0;
        while i < copies.len()
            invariant
                self.wf(),
                i <= copies@.len(),
                self.wd().room() >= old(self).wd().room() - (i + copy_port_total(copies@.subrange(0, i as int))),
                old(self).wd().room() >= copies@.len() + copy_port_total(copies@) + pairs@.len(),
                self.wd().allocator_spec().offset() == old(self).wd().allocator_spec().offset(),
                forall|e: EntityId|
                    old(self).wd().alive(e) && old(self).endpoints(e) is None ==> {
                        &&& #[trigger] self.wd().alive(e)
                        &&& self.owner_of(e) == old(self).owner_of(e)
                        &&& self.dir_of(e) == old(self).dir_of(e)
                        &&& self.endpoints(e) is None
                    },
                forall|e: EntityId| old(self).wd().alive(e) ==> #[trigger] self.wd().alive(e),
                forall|c: EntityId| old(self).endpoints(c) is Some ==> #[trigger] self.endpoints(c) == old(self).endpoints(c),
                forall|a: int| 0 <= a < map@.len() ==> !old(self).wd().alive((#[trigger] map@[a]).1),
                made.len() == i,
                forall|a: int|
                    0 <= a < i ==> restored(copies@[a], *self, #[trigger] made[a]) && !old(self).wd().alive(made[a]),
                forall|i2: int| 0 <= i2 < copies@.len() ==> copy_of_regular(sg, #[trigger] copies@[i2]),
                map_ok(sg, Seq::empty(), *self, map@),
                forall|i2: int, j2: int|
                    0 <= i2 < i && 0 <= j2 < copies@[i2].ports@.len() ==> mapped(map@, #[trigger] copies@[i2].ports@[j2].source),
                forall|a: int|
                    0 <= a < map@.len() ==> (self.owner_of((#[trigger] map@[a]).1) matches Some(o) && !old(self).wd().alive(o)),
            decreases copies.len() - i,
        {
            proof {
                assert(copies@.subrange(0, i as int + 1).drop_last() =~= copies@.subrange(0, i as int));
                lemma_copy_port_total_prefix(copies@, i as int + 1);
            }
            let c = &copies[i];
            let ghost w0 = *self;
            let new_nid = self.add_node(c.header.title.as_str(), c.position);
            let ghost s1 = *self;
            self.set_component(new_nid, c.header.clone());
            let ghost s2 = *self;
            proof {
                lemma_add_node_keeps(w0, s1, new_nid);
                lemma_set_header_keeps_but(s1, s2, new_nid);
                let ks = set![ComponentKind::NodeHeader];
                crate::store::components::lemma_same_except_single(s2.wd().comps(), s1.wd().comps(), ComponentKind::NodeHeader);
                s2.wd().lemma_comp_kept::<NodePosition<F>>(&s1.wd(), ks, new_nid);
                s2.wd().lemma_comp_kept::<GroupIOKind>(&s1.wd(), ks, new_nid);
                assert forall|e: EntityId| old(self).wd().alive(e) && old(self).endpoints(e) is None implies {
                    &&& #[trigger] self.wd().alive(e)
                    &&& self.owner_of(e) == old(self).owner_of(e)
                    &&& self.dir_of(e) == old(self).dir_of(e)
                    &&& self.endpoints(e) is None
                } by {
                    assert(w0.wd().alive(e));
                }
                lemma_map_ok_kept(sg, Seq::empty(), w0, s1, map@);
                assert forall|a: int| 0 <= a < map@.len() implies copied_port(sg, (#[trigger] map@[a]).0, s2, map@[a].1) by {
                    let q = map@[a].1;
                    assert(copied_port(sg, map@[a].0, w0, q));
                    assert(w0.owner_of(q) != Some(new_nid));
                    lemma_copied_port_kept_but(sg, map@[a].0, s1, s2, q, new_nid);
                }
                assert forall|a: int| 0 <= a < map@.len() implies (s2.owner_of((#[trigger] map@[a]).1) matches Some(o) && !old(self).wd().alive(o)) by {
                    let q = map@[a].1;
                    assert(copied_port(sg, map@[a].0, w0, q));
                    assert(s1.wd().alive(q));
                    assert(s2.wd().alive(q));
                }
                assert(!old(self).wd().alive(new_nid));
            }
            let mut j: usize = 0;
            while j < c.ports.len()
                invariant
                    self.wf(),
                    i < copies@.len(),
                    *c == copies@[i as int],
                    j <= c.ports@.len(),
                    self.can_own_ports(new_nid),
                    self.wd().room() >= old(self).wd().room() - (i + 1 + copy_port_total(copies@.subrange(0, i as int)) + j),
                    copy_port_total(copies@.subrange(0, i as int + 1)) == copy_port_total(copies@.subrange(0, i as int)) + c.ports@.len(),
                    copy_port_total(copies@.subrange(0, i as int + 1)) <= copy_port_total(copies@),
                    old(self).wd().room() >= copies@.len() + copy_port_total(copies@) + pairs@.len(),
                    self.wd().allocator_spec().offset() == old(self).wd().allocator_spec().offset(),
                    forall|e: EntityId|
                        old(self).wd().alive(e) && old(self).endpoints(e) is None ==> {
                            &&& #[trigger] self.wd().alive(e)
                            &&& self.owner_of(e) == old(self).owner_of(e)
                            &&& self.dir_of(e) == old(self).dir_of(e)
                            &&& self.endpoints(e) is None
                        },
                    forall|e: EntityId| old(self).wd().alive(e) ==> #[trigger] self.wd().alive(e),
                    forall|c: EntityId| old(self).endpoints(c) is Some ==> #[trigger] self.endpoints(c) == old(self).endpoints(c),
                    forall|a: int| 0 <= a < map@.len() ==> !old(self).wd().alive((#[trigger] map@[a]).1),
                    !w0.wd().alive(new_nid),
                    keeps_nodes_but(s2, *self, new_nid),
                    self.wd().alive(new_nid),
                    self.endpoints(new_nid) is None,
                    self.owner_of(new_nid) is None,
                    self.wd().comp::<NodeHeader>(new_nid) == Some(c.header),
                    self.wd().comp::<GroupIOKind>(new_nid) is None,
                    self.wd().comp::<NodePosition<F>>(new_nid) == Some(NodePosition { x: c.position.0, y: c.position.1 }),
                    self.ports_of(new_nid).len() == j,
                    forall|a: int| 0 <= a < j ==> restored_port(c.ports@[a], *self, #[trigger] self.ports_of(new_nid)[a]),
                    forall|i2: int| 0 <= i2 < copies@.len() ==> copy_of_regular(sg, #[trigger] copies@[i2]),
                    map_ok(sg, Seq::empty(), *self, map@),
                    forall|i2: int, j2: int|
                        0 <= i2 < i && 0 <= j2 < copies@[i2].ports@.len() ==> mapped(map@, #[trigger] copies@[i2].ports@[j2].source),
                    forall|j2: int| 0 <= j2 < j ==> mapped(map@, #[trigger] c.ports@[j2].source),
                    !old(self).wd().alive(new_nid),
                    forall|a: int|
                        0 <= a < map@.len() ==> (self.owner_of((#[trigger] map@[a]).1) matches Some(o) && !old(self).wd().alive(o)),
                decreases c.ports.len() - j,
            {
                let pc = &c.ports[j];
                let ghost w0 = *self;
                let new_pid = self.add_port(new_nid, pc.direction, pc.socket_type, pc.label.as_str());
                proof {
                    lemma_add_port_keeps_but(w0, *self, new_nid, new_pid);
                    lemma_keeps_but_trans(s2, w0, *self, new_nid);
                    let kp = set![ComponentKind::PortOwner, ComponentKind::PortDirection, ComponentKind::PortSocketType, ComponentKind::PortLabel, ComponentKind::PortIndex];
                    self.wd().lemma_comp_kept::<NodeHeader>(&w0.wd(), kp, new_nid);
                    self.wd().lemma_comp_kept::<NodePosition<F>>(&w0.wd(), kp, new_nid);
                    self.wd().lemma_comp_kept::<GroupIOKind>(&w0.wd(), kp, new_nid);
                    assert(self.ports_of(new_nid) == w0.ports_of(new_nid).push(new_pid));
                    assert forall|a: int| 0 <= a < j + 1 implies restored_port(c.ports@[a], *self, #[trigger] self.ports_of(new_nid)[a]) by {
                        if a < j {
                            let q = w0.ports_of(new_nid)[a];
                            assert(w0.ports_of(new_nid).contains(q));
                            assert(w0.wd().alive(q));
                            assert(q != new_pid);
                            assert(restored_port(c.ports@[a], w0, q));
                        }
                    }
                    assert forall|e: EntityId| old(self).wd().alive(e) && old(self).endpoints(e) is None implies {
                        &&& #[trigger] self.wd().alive(e)
                        &&& self.owner_of(e) == old(self).owner_of(e)
                        &&& self.dir_of(e) == old(self).dir_of(e)
                        &&& self.endpoints(e) is None
                    } by {
                        assert(w0.wd().alive(e));
                    }
                }
                proof {
                    assert(!old(self).wd().alive(new_pid));
                    assert forall|a: int| 0 <= a < map@.len() implies copied_port(sg, (#[trigger] map@[a]).0, *self, map@[a].1) by {
                        let q = map@[a].1;
                        assert(copied_port(sg, map@[a].0, w0, q));
                        lemma_copied_port_kept_but(sg, map@[a].0, w0, *self, q, new_nid);
                    }
                    assert(copy_of_regular(sg, copies@[i as int]));
                    let n = choose|n: EntityId| regular_node(sg, n) && sg.wd().alive(n) && describes(sg, n, *c);
                    assert(c.ports@[j as int] == *pc);
                    assert(self.ports_of(new_nid)[j as int] == new_pid);
                    assert(self.ports_of(new_nid).contains(new_pid));
                    assert(restored_port(*pc, *self, new_pid));
                    assert(copied_port(sg, pc.source, *self, new_pid));
                    assert forall|a: int| 0 <= a < map@.len() implies (self.owner_of((#[trigger] map@[a]).1) matches Some(o) && !old(self).wd().alive(o)) by {
                        let q = map@[a].1;
                        assert(copied_port(sg, map@[a].0, w0, q));
                        assert(self.wd().alive(q));
                    }
                    assert(self.owner_of(new_pid) == Some(new_nid));
                }
                let ghost m0 = map@;
                map.push((pc.source, new_pid));
                proof {
                    assert forall|a: int| 0 <= a < map@.len() implies copied_port(sg, (#[trigger] map@[a]).0, *self, map@[a].1) by {
                        if a < m0.len() {
                            assert(map@[a] == m0[a]);
                        }
                    }
                    assert forall|a: int, a2: int| 0 <= a < a2 < map@.len() implies (#[trigger] map@[a]).1 != (#[trigger] map@[a2]).1 by {
                        if a2 == m0.len() {
                            assert(copied_port(sg, m0[a].0, w0, m0[a].1));
                        } else {
                            assert(map@[a] == m0[a] && map@[a2] == m0[a2]);
                        }
                    }
                    assert forall|i2: int, j2: int|
                        0 <= i2 < i && 0 <= j2 < copies@[i2].ports@.len() implies mapped(map@, #[trigger] copies@[i2].ports@[j2].source) by {
                        lemma_mapped_push(m0, (pc.source, new_pid), copies@[i2].ports@[j2].source);
                    }
                    assert forall|a: int| 0 <= a < map@.len() implies (self.owner_of((#[trigger] map@[a]).1) matches Some(o) && !old(self).wd().alive(o)) by {
                        if a < m0.len() {
                            assert(map@[a] == m0[a]);
                        }
                    }
                    assert forall|j2: int| 0 <= j2 < j + 1 implies mapped(map@, #[trigger] c.ports@[j2].source) by {
                        if j2 < j {
                            lemma_mapped_push(m0, (pc.source, new_pid), c.ports@[j2].source);
                        } else {
                            assert(map@[m0.len() as int].0 == c.ports@[j2].source);
                        }
                    }
                }
                j = j + 1;
            }
            proof {
                assert forall|i2: int, j2: int|
                    0 <= i2 < i + 1 && 0 <= j2 < copies@[i2].ports@.len() implies mapped(map@, #[trigger] copies@[i2].ports@[j2].source) by {
                    if i2 == i {
                        assert(copies@[i2] == *c);
                        assert(mapped(map@, c.ports@[j2].source));
                    }
                }
                lemma_keeps_but_trans(s1, s2, *self, new_nid);
                lemma_keeps_join(w0, s1, *self, new_nid);
                assert(restored(*c, *self, new_nid));
                assert forall|a: int|
                    0 <= a < i + 1 implies restored(copies@[a], *self, #[trigger] made.push(new_nid)[a]) && !old(self).wd().alive(
                    made.push(new_nid)[a],
                ) by {
                    if a < i {
                        lemma_restored_kept(copies@[a], w0, *self, made[a]);
                    }
                }
                made = made.push(new_nid);
            }
            i = i + 1;
        }
        assert(copies@.subrange(0, i as int) =~= copies@);
        let mut k: usize = 0;
        while k < pairs.len()
            invariant
                self.wf(),
                k <= pairs@.len(),
                self.wd().room() >= old(self).wd().room() - (copies@.len() + copy_port_total(copies@) + k),
                old(self).wd().room() >= copies@.len() + copy_port_total(copies@) + pairs@.len(),
                self.wd().allocator_spec().offset() == old(self).wd().allocator_spec().offset(),
                forall|e: EntityId|
                    old(self).wd().alive(e) && old(self).endpoints(e) is None ==> {
                        &&& #[trigger] self.wd().alive(e)
                        &&& self.owner_of(e) == old(self).owner_of(e)
                        &&& self.dir_of(e) == old(self).dir_of(e)
                        &&& self.endpoints(e) is None
                    },
                made.len() == copies@.len(),
                forall|a: int|
                    0 <= a < copies@.len() ==> restored(copies@[a], *self, #[trigger] made[a]) && !old(self).wd().alive(made[a]),
                old(self).wf(),
                forall|c: EntityId| old(self).endpoints(c) is Some ==> #[trigger] self.endpoints(c) == old(self).endpoints(c),
                forall|a: int| 0 <= a < map@.len() ==> !old(self).wd().alive((#[trigger] map@[a]).1),
                map_ok(sg, Seq::empty(), *self, map@),
                forall|i2: int, j2: int|
                    0 <= i2 < copies@.len() && 0 <= j2 < copies@[i2].ports@.len() ==> mapped(map@, #[trigger] copies@[i2].ports@[j2].source),
                forall|k1: int|
                    0 <= k1 < pairs@.len() ==> sg.dir_of((#[trigger] pairs@[k1]).0) == Some(PortDirection::Output) && sg.dir_of(
                        pairs@[k1].1,
                    ) == Some(PortDirection::Input),
                forall|k1: int|
                    0 <= k1 < k && pair_open(map@, pairs@, k1, k as int) ==> joined_via(*self, map@, (#[trigger] pairs@[k1]).0, pairs@[k1].1),
                forall|a: int|
                    0 <= a < map@.len() ==> (self.owner_of((#[trigger] map@[a]).1) matches Some(o) && !old(self).wd().alive(o)),
            decreases pairs.len() - k,
        {
            let (old_src, old_tgt) = pairs[k];
            let ls = last_match(&map, old_src);
            let lt = last_match(&map, old_tgt);
            match (ls, lt) {
                (Some(new_src), Some(new_tgt)) => {
                    let ghost w0 = *self;
                    let r = self.connect(new_src, new_tgt);
                    proof {
                        lemma_connect_keeps_nodes(w0, *self, new_src, new_tgt, r);
                        lemma_map_ok_kept(sg, Seq::empty(), w0, *self, map@);
                        lemma_pair_step(sg, w0, *self, map@, pairs@, k as int, new_src, new_tgt, r);
                        assert forall|a: int| 0 <= a < map@.len() implies (self.owner_of((#[trigger] map@[a]).1) matches Some(o) && !old(self).wd().alive(o)) by {
                            assert(copied_port(sg, map@[a].0, w0, map@[a].1));
                            assert(self.wd().alive(map@[a].1));
                        }
                        assert(!old(self).wd().alive(new_src) && !old(self).wd().alive(new_tgt));
                        assert forall|c: EntityId| old(self).endpoints(c) is Some implies #[trigger] self.endpoints(c) == old(self).endpoints(c) by {
                            let ep = old(self).endpoints(c)->0;
                            assert(w0.endpoints(c) == old(self).endpoints(c));
                            assert(old(self).owner_of(ep.source_port) is Some);
                            assert(old(self).owner_of(ep.target_port) is Some);
                            match w0.validation(new_src, new_tgt) {
                                Ok((o, i)) => {
                                    assert(i == new_src || i == new_tgt);
                                    assert(ep.source_port != i && ep.target_port != i);
                                    assert(!w0.conns_of(i).contains(c));
                                },
                                Err(_) => {},
                            }
                        }
                        assert forall|a: int|
                            0 <= a < copies@.len() implies restored(copies@[a], *self, #[trigger] made[a]) && !old(self).wd().alive(made[a]) by {
                            lemma_restored_kept(copies@[a], w0, *self, made[a]);
                        }
                        let ks = set![ComponentKind::ConnectionEndpoints];
                        assert forall|e: EntityId| old(self).wd().alive(e) && old(self).endpoints(e) is None implies {
                            &&& #[trigger] self.wd().alive(e)
                            &&& self.owner_of(e) == old(self).owner_of(e)
                            &&& self.dir_of(e) == old(self).dir_of(e)
                            &&& self.endpoints(e) is None
                        } by {
                            assert(w0.wd().alive(e) && w0.endpoints(e) is None);
                            assert forall|q: EntityId, c: EntityId| #[trigger] w0.conns_of(q).contains(c) implies c != e by {
                                assert(w0.endpoints(c) is Some);
                            }
                            self.wd().lemma_comp_kept::<PortOwner>(&w0.wd(), ks, e);
                        }
                    }
                },
                _ => {
                    proof {
                        assert(!pair_open(map@, pairs@, k as int, k as int + 1)) by {
                            if ls is None {
                                assert(!mapped(map@, old_src));
                            } else {
                                assert(!mapped(map@, old_tgt));
                            }
                        }
                        assert forall|k1: int|
                            0 <= k1 < k + 1 && pair_open(map@, pairs@, k1, k as int + 1) implies joined_via(
                            *self,
                            map@,
                            (#[trigger] pairs@[k1]).0,
                            pairs@[k1].1,
                        ) by {
                            if k1 < k {
                                assert(pair_open(map@, pairs@, k1, k as int));
                            }
                        }
                    }
                },
            }
            k = k + 1;
        }
        proof {
            assert forall|i: int| 0 <= i < copies@.len() implies #[trigger] has_fresh_restored(copies@[i], *self, *old(self)) by {
                assert(restored(copies@[i], *self, made[i]));
            }
        }
        map
    }
}

} // verus!
