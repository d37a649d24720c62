use vstd::prelude::*;
use crate::graph::port::PortDirection;
use crate::types::socket_type::{SocketType, compatible};

verus! {

/// A port of a node type: direction, socket type and label.
#[derive(Debug)]
pub struct PortDefinition {
    pub direction: PortDirection,
    pub socket_type: SocketType,
    pub label: String,
}

impl Clone for PortDefinition {
    fn clone(&self) -> (r: Self)
        ensures
            r == *self,
    {
        PortDefinition { direction: self.direction, socket_type: self.socket_type, label: self.label.clone() }
    }
}

/// A kind of node that can be added from the search menu.
#[derive(Debug, Clone)]
pub struct NodeTypeDefinition {
    pub type_id: String,
    pub display_name: String,
    pub category: String,
    pub input_ports: Vec<PortDefinition>,
    pub output_ports: Vec<PortDefinition>,
}

/// Lower-case form of a string, as `str::to_lowercase` computes it.
pub uninterp spec fn lowercase(s: Seq<char>) -> Seq<char>;

/// The lower-case form of `s`, computed by `str::to_lowercase`.
#[verifier::external_body]
fn to_lower(s: &str) -> (r: String)
    ensures
        r@ == lowercase(s@),
{
    s.to_lowercase()
}

/// Whether `needle` occurs as a contiguous part of `hay`.
pub open spec fn occurs_in(hay: Seq<char>, needle: Seq<char>) -> bool {
    exists|i: int| 0 <= i <= hay.len() - needle.len() && #[trigger] hay.subrange(i, i + needle.len()) == needle
}

/// Whether `hay` holds `needle` as a contiguous part (`str::contains`).
fn contains_str(hay: &str, needle: &str) -> (r: bool)
    ensures
        r == occurs_in(hay@, needle@),
{
    let n = hay.unicode_len();
    let m = needle.unicode_len();
    if m > n {
        proof {
            assert forall|i: int| 0 <= i <= hay@.len() - needle@.len() implies #[trigger] hay@.subrange(i, i + needle@.len()) != needle@ by {}
        }
        return false;
    }
    let mut i: usize = 0;
    while i <= n - m
        invariant
            n == hay@.len(),
            m == needle@.len(),
            m <= n,
            i <= n - m + 1,
            forall|j: int| 0 <= j < i ==> #[trigger] hay@.subrange(j, j + m as int) != needle@,
        decreases n - m + 1 - i,
    {
        let mut k: usize = 0;
        let mut same = true;
        while k < m
            invariant
                n == hay@.len(),
                m == needle@.len(),
                i + m <= n,
                k <= m,
                same == forall|t: int| 0 <= t < k ==> hay@[i + t] == needle@[t],
            decreases m - k,
        {
            if hay.get_char(i + k) != needle.get_char(k) {
                same = false;
            }
            k = k + 1;
        }
        if same {
            proof {
                assert(hay@.subrange(i as int, i + m as int) =~= needle@);
            }
            return true;
        }
        proof {
            assert(hay@.subrange(i as int, i + m as int) != needle@) by {
                let t = choose|t: int| 0 <= t < m && hay@[i + t] != needle@[t];
                assert(hay@.subrange(i as int, i + m as int)[t] == hay@[i + t]);
            }
        }
        i = i + 1;
    }
    false
}

/// Whether a node type matches a search text: an empty text matches every
/// type, otherwise its lower-case form must occur in the lower-case display
/// name or category.
pub open spec fn matches_query(t: NodeTypeDefinition, query: Seq<char>) -> bool {
    query.len() == 0 || occurs_in(lowercase(t.display_name@), lowercase(query)) || occurs_in(
        lowercase(t.category@),
        lowercase(query),
    )
}

/// The types of `ts` that match `query`, in order.
pub open spec fn matching(ts: Seq<NodeTypeDefinition>, query: Seq<char>) -> Seq<NodeTypeDefinition>
    decreases ts.len(),
{
    if ts.len() == 0 {
        Seq::empty()
    } else if matches_query(ts.last(), query) {
        matching(ts.drop_last(), query).push(ts.last())
    } else {
        matching(ts.drop_last(), query)
    }
}

/// Whether some port of `ports` accepts a connection from a port of type
/// `src_type`.
pub open spec fn offers_compatible(ports: Seq<PortDefinition>, src_type: SocketType) -> bool {
    exists|i: int| 0 <= i < ports.len() && #[trigger] compatible(src_type, ports[i].socket_type)
}

/// Whether a node type can take a connection dragged from a port of type
/// `src_type`: from an output it needs a compatible input, from an input a
/// compatible output.
pub open spec fn accepts_drop(t: NodeTypeDefinition, src_type: SocketType, from_output: bool) -> bool {
    if from_output {
        offers_compatible(t.input_ports@, src_type)
    } else {
        offers_compatible(t.output_ports@, src_type)
    }
}

/// The types of `ts` that can take such a connection, in order.
pub open spec fn accepting(ts: Seq<NodeTypeDefinition>, src_type: SocketType, from_output: bool) -> Seq<NodeTypeDefinition>
    decreases ts.len(),
{
    if ts.len() == 0 {
        Seq::empty()
    } else if accepts_drop(ts.last(), src_type, from_output) {
        accepting(ts.drop_last(), src_type, from_output).push(ts.last())
    } else {
        accepting(ts.drop_last(), src_type, from_output)
    }
}

proof fn lemma_matching_member(ts: Seq<NodeTypeDefinition>, query: Seq<char>, x: NodeTypeDefinition)
    ensures
        matching(ts, query).contains(x) <==> ts.contains(x) && matches_query(x, query),
    decreases ts.len(),
{
    if ts.len() > 0 {
        lemma_matching_member(ts.drop_last(), query, x);
        let before = matching(ts.drop_last(), query);
        if ts.drop_last().contains(x) {
            let i = choose|i: int| 0 <= i < ts.drop_last().len() && ts.drop_last()[i] == x;
            assert(ts[i] == x);
        }
        if ts.contains(x) {
            let i = choose|i: int| 0 <= i < ts.len() && ts[i] == x;
            if i < ts.len() - 1 {
                assert(ts.drop_last()[i] == x);
            }
        }
        if matches_query(ts.last(), query) {
            assert(matching(ts, query) == before.push(ts.last()));
            if before.contains(x) {
                let i = choose|i: int| 0 <= i < before.len() && before[i] == x;
                assert(before.push(ts.last())[i] == x);
            }
            if before.push(ts.last()).contains(x) {
                let i = choose|i: int| 0 <= i < before.len() + 1 && before.push(ts.last())[i] == x;
                if i < before.len() {
                    assert(before[i] == x);
                }
            }
            assert(before.push(ts.last())[before.len() as int] == ts.last());
        }
    }
}

proof fn lemma_accepting_member(ts: Seq<NodeTypeDefinition>, src_type: SocketType, from_output: bool, x: NodeTypeDefinition)
    ensures
        accepting(ts, src_type, from_output).contains(x) <==> ts.contains(x) && accepts_drop(x, src_type, from_output),
    decreases ts.len(),
{
    if ts.len() > 0 {
        lemma_accepting_member(ts.drop_last(), src_type, from_output, x);
        let before = accepting(ts.drop_last(), src_type, from_output);
        if ts.drop_last().contains(x) {
            let i = choose|i: int| 0 <= i < ts.drop_last().len() && ts.drop_last()[i] == x;
            assert(ts[i] == x);
        }
        if ts.contains(x) {
            let i = choose|i: int| 0 <= i < ts.len() && ts[i] == x;
            if i < ts.len() - 1 {
                assert(ts.drop_last()[i] == x);
            }
        }
        if accepts_drop(ts.last(), src_type, from_output) {
            assert(accepting(ts, src_type, from_output) == before.push(ts.last()));
            if before.contains(x) {
                let i = choose|i: int| 0 <= i < before.len() && before[i] == x;
                assert(before.push(ts.last())[i] == x);
            }
            if before.push(ts.last()).contains(x) {
                let i = choose|i: int| 0 <= i < before.len() + 1 && before.push(ts.last())[i] == x;
                if i < before.len() {
                    assert(before[i] == x);
                }
            }
            assert(before.push(ts.last())[before.len() as int] == ts.last());
        }
    }
}

/// A registered type is offered for a wire dragged from a port of type
/// `src_type` exactly when the search text is empty or its lower-case form
/// occurs in the lower-case display name or category, and some port on the
/// side the wire needs, at any position (inputs for a wire from an output,
/// outputs for a wire from an input), has a type that `src_type` can feed.
pub proof fn lemma_search_compatible_members(
    ts: Seq<NodeTypeDefinition>,
    query: Seq<char>,
    src_type: SocketType,
    from_output: bool,
    x: NodeTypeDefinition,
)
    ensures
        accepting(matching(ts, query), src_type, from_output).contains(x) <==> {
            &&& ts.contains(x)
            &&& query.len() == 0 || (exists|i: int|
                0 <= i <= lowercase(x.display_name@).len() - lowercase(query).len() && #[trigger] lowercase(
                    x.display_name@,
                ).subrange(i, i + lowercase(query).len()) == lowercase(query)) || (exists|i: int|
                0 <= i <= lowercase(x.category@).len() - lowercase(query).len() && #[trigger] lowercase(x.category@).subrange(
                    i,
                    i + lowercase(query).len(),
                ) == lowercase(query))
            &&& from_output ==> exists|i: int|
                0 <= i < x.input_ports@.len() && compatible(src_type, #[trigger] x.input_ports@[i].socket_type)
            &&& !from_output ==> exists|i: int|
                0 <= i < x.output_ports@.len() && compatible(src_type, #[trigger] x.output_ports@[i].socket_type)
        },
{
    lemma_accepting_member(matching(ts, query), src_type, from_output, x);
    lemma_matching_member(ts, query, x);
}

/// The node types that the references `r` point to, in order.
pub open spec fn the_types(r: Seq<&NodeTypeDefinition>) -> Seq<NodeTypeDefinition> {
    r.map_values(|t: &NodeTypeDefinition| *t)
}

/// The registered node types, in registration order.
pub struct NodeTypeRegistry {
    types: Vec<NodeTypeDefinition>,
}

impl NodeTypeRegistry {
    pub closed spec fn types_view(&self) -> Seq<NodeTypeDefinition> {
        self.types@
    }

    pub fn new() -> (r: Self)
        ensures
            r.types_view().len() == 0,
    {
        NodeTypeRegistry { types: Vec::new() }
    }

    /// Add a node type at the end.
    pub fn register(&mut self, def: NodeTypeDefinition)
        ensures
            final(self).types_view() == old(self).types_view().push(def),
    {
        self.types.push(def);
    }

    /// All registered types.
    pub fn all(&self) -> (r: &[NodeTypeDefinition])
        ensures
            r@ == self.types_view(),
    {
        self.types.as_slice()
    }

    /// The first registered type with id `type_id`.
    pub fn get(&self, type_id: &str) -> (r: Option<&NodeTypeDefinition>)
        ensures
            match r {
                Some(t) => exists|i: int|
                    0 <= i < self.types_view().len() && self.types_view()[i] == *t && t.type_id@ == type_id@ && forall|j: int|
                        0 <= j < i ==> #[trigger] self.types_view()[j].type_id@ != type_id@,
                None => forall|i: int| 0 <= i < self.types_view().len() ==> #[trigger] self.types_view()[i].type_id@ != type_id@,
            },
    {
        let wanted = type_id.to_owned();
        let mut i: usize = 0;
        while i < self.types.len()
            invariant
                i <= self.types_view().len(),
                wanted@ == type_id@,
                forall|j: int| 0 <= j < i ==> #[trigger] self.types_view()[j].type_id@ != type_id@,
            decreases self.types.len() - i,
        {
            if self.types[i].type_id == wanted {
                return Some(&self.types[i]);
            }
            i = i + 1;
        }
        None
    }

    /// The registered types whose display name or category holds `query`,
    /// ignoring case; all types for an empty query.
    pub fn search(&self, query: &str) -> (r: Vec<&NodeTypeDefinition>)
        ensures
            r@.map_values(|t: &NodeTypeDefinition| *t) == matching(self.types_view(), query@),
    {
        let q = to_lower(query);
        let empty = query.unicode_len() == 0;
        let mut r: Vec<&NodeTypeDefinition> = Vec::new();
        let mut i: usize = 0;
        while i < self.types.len()
            invariant
                i <= self.types_view().len(),
                q@ == lowercase(query@),
                empty == (query@.len() == 0),
                r@.map_values(|t: &NodeTypeDefinition| *t) == matching(self.types_view().subrange(0, i as int), query@),
            decreases self.types.len() - i,
        {
            let t = &self.types[i];
            let hit = empty || contains_str(to_lower(t.display_name.as_str()).as_str(), q.as_str()) || contains_str(
                to_lower(t.category.as_str()).as_str(),
                q.as_str(),
            );
            proof {
                assert(self.types_view().subrange(0, i as int + 1).drop_last() =~= self.types_view().subrange(0, i as int));
            }
            let ghost r0 = r@;
            if hit {
                r.push(t);
                proof {
                    assert(r@.map_values(|t: &NodeTypeDefinition| *t) =~= r0.map_values(|t: &NodeTypeDefinition| *t).push(*t));
                }
            }
            i = i + 1;
        }
        proof {
            assert(self.types_view().subrange(0, i as int) =~= self.types_view());
        }
        r
    }

    /// The results of `search(query)` that can take a connection dragged
    /// from a port of type `src_type` (`from_output`: the drag started at an
    /// output port, so the type needs a compatible input).
    pub fn search_compatible(&self, query: &str, src_type: SocketType, from_output: bool) -> (r: Vec<&NodeTypeDefinition>)
        ensures
            r@.map_values(|t: &NodeTypeDefinition| *t) == accepting(matching(self.types_view(), query@), src_type, from_output),
            forall|x: NodeTypeDefinition|
                #[trigger] the_types(r@).contains(x) <==> {
                    &&& self.types_view().contains(x)
                    &&& query@.len() == 0 || (exists|i: int|
                        0 <= i <= lowercase(x.display_name@).len() - lowercase(query@).len() && #[trigger] lowercase(
                            x.display_name@,
                        ).subrange(i, i + lowercase(query@).len()) == lowercase(query@)) || (exists|i: int|
                        0 <= i <= lowercase(x.category@).len() - lowercase(query@).len() && #[trigger] lowercase(
                            x.category@,
                        ).subrange(i, i + lowercase(query@).len()) == lowercase(query@))
                    &&& from_output ==> exists|i: int|
                        0 <= i < x.input_ports@.len() && compatible(src_type, #[trigger] x.input_ports@[i].socket_type)
                    &&& !from_output ==> exists|i: int|
                        0 <= i < x.output_ports@.len() && compatible(src_type, #[trigger] x.output_ports@[i].socket_type)
                },
    {
        let found = self.search(query);
        let mut r: Vec<&NodeTypeDefinition> = Vec::new();
        let mut i: usize = 0;
        while i < found.len()
            invariant
                i <= found@.len(),
                found@.map_values(|t: &NodeTypeDefinition| *t) == matching(self.types_view(), query@),
                r@.map_values(|t: &NodeTypeDefinition| *t) == accepting(found@.subrange(0, i as int).map_values(|t: &NodeTypeDefinition| *t), src_type, from_output),
            decreases found.len() - i,
        {
            let t = found[i];
            let ports = if from_output { &t.input_ports } else { &t.output_ports };
            let mut ok = false;
            let mut k: usize = 0;
            while k < ports.len()
                invariant
                    k <= ports@.len(),
                    ok == exists|j: int| 0 <= j < k && #[trigger] compatible(src_type, ports@[j].socket_type),
                decreases ports.len() - k,
            {
                if src_type.is_compatible_with(&ports[k].socket_type) {
                    ok = true;
                }
                k = k + 1;
            }
            proof {
                assert(found@.subrange(0, i as int + 1).map_values(|t: &NodeTypeDefinition| *t).drop_last()
                    =~= found@.subrange(0, i as int).map_values(|t: &NodeTypeDefinition| *t));
            }
            let ghost r0 = r@;
            if ok {
                r.push(t);
                proof {
                    assert(r@.map_values(|t: &NodeTypeDefinition| *t) =~= r0.map_values(|t: &NodeTypeDefinition| *t).push(*t));
                }
            }
            i = i + 1;
        }
        proof {
            assert(found@.subrange(0, i as int).map_values(|t: &NodeTypeDefinition| *t) =~= found@.map_values(
                |t: &NodeTypeDefinition| *t,
            ));
            assert forall|x: NodeTypeDefinition|
                #[trigger] the_types(r@).contains(x) <==> {
                    &&& self.types_view().contains(x)
                    &&& query@.len() == 0 || (exists|i: int|
                        0 <= i <= lowercase(x.display_name@).len() - lowercase(query@).len() && #[trigger] lowercase(
                            x.display_name@,
                        ).subrange(i, i + lowercase(query@).len()) == lowercase(query@)) || (exists|i: int|
                        0 <= i <= lowercase(x.category@).len() - lowercase(query@).len() && #[trigger] lowercase(
                            x.category@,
                        ).subrange(i, i + lowercase(query@).len()) == lowercase(query@))
                    &&& from_output ==> exists|i: int|
                        0 <= i < x.input_ports@.len() && compatible(src_type, #[trigger] x.input_ports@[i].socket_type)
                    &&& !from_output ==> exists|i: int|
                        0 <= i < x.output_ports@.len() && compatible(src_type, #[trigger] x.output_ports@[i].socket_type)
                } by {
                lemma_search_compatible_members(self.types_view(), query@, src_type, from_output, x);
            }
        }
        r
    }
}

impl Default for NodeTypeRegistry {
    fn default() -> (r: Self)
        ensures
            r.types_view().len() == 0,
    {
        NodeTypeRegistry::new()
    }
}

} // verus!
