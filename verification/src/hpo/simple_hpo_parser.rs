//! A plain ontology model and the dictionary entries drawn from it.
//!
//! The ontology is a list of nodes (identifier, primary label, synonyms) and
//! directed is-a edges (child, parent), both as plain text. The dictionary
//! entries are the lowercased labels and synonyms of every term in the
//! subtree of the phenotype root, after a blocklist and a minimum-length
//! filter; a later entry with the same text replaces the earlier one.

use vstd::prelude::*;
use vstd::seq_lib::*;
use vstd::set_lib::*;

use crate::hpo::term_label_map::TermLabelMap;
use crate::term_id::TermId;
use crate::text::{lc_seq, lc_str, str_eq};
use crate::word_set::WordSet;

verus! {

/// The identifier of the root of the phenotypic-abnormality subtree: only
/// its descendants are indexed for matching.
pub open spec fn spec_phenotype_root() -> Seq<char> {
    "HP:0000118"@
}

/// The text after the last `/` of `s`; `s` itself when there is none.
pub open spec fn after_last_slash(s: Seq<char>) -> Seq<char>
    decreases s.len(),
{
    if s.len() == 0 {
        s
    } else if s.last() == '/' {
        Seq::empty()
    } else {
        after_last_slash(s.drop_last()).push(s.last())
    }
}

/// Every underscore replaced by a colon.
pub open spec fn replace_underscore(s: Seq<char>) -> Seq<char> {
    s.map_values(|c: char| if c == '_' { ':' } else { c })
}

/// A URI such as `http://purl.obolibrary.org/obo/HP_6000699` as the CURIE
/// `HP:6000699`.
pub open spec fn hp_id_of(s: Seq<char>) -> Seq<char> {
    replace_underscore(after_last_slash(s))
}

/// The suffix after position `p` is the text after the last slash, provided
/// nothing at or after `p` is a slash and `p` follows one (or starts `s`).
proof fn lemma_after_last_slash(s: Seq<char>, p: int)
    requires
        0 <= p <= s.len(),
        forall|j: int| p <= j < s.len() ==> s[j] != '/',
        p == 0 || s[p - 1] == '/',
    ensures
        after_last_slash(s) =~= s.subrange(p, s.len() as int),
    decreases s.len(),
{
    if p == s.len() {
        if p == 0 {
        } else {
            assert(s.last() == '/');
        }
    } else {
        assert(s.last() != '/');
        lemma_after_last_slash(s.drop_last(), p);
        assert(after_last_slash(s) =~= s.drop_last().subrange(p, s.len() - 1).push(s.last()));
    }
}

/// Transform a URI into a CURIE: take the last `/`-separated field and
/// replace `_` by `:`.
pub fn get_hp_id(uri: &str) -> (r: String)
    ensures
        r@ == hp_id_of(uri@),
{
    let len = uri.unicode_len();
    // find the position after the last slash
    let mut p: usize = len;
    while p > 0 && uri.get_char(p - 1) != '/'
        invariant
            0 <= p <= len,
            len == uri@.len(),
            forall|j: int| p <= j < len ==> uri@[j] != '/',
        decreases p,
    {
        p = p - 1;
    }
    proof {
        lemma_after_last_slash(uri@, p as int);
    }
    let mut out = String::new();
    let ghost tail = uri@.subrange(p as int, len as int);
    for i in p..len
        invariant
            p <= i <= len,
            len == uri@.len(),
            tail == uri@.subrange(p as int, len as int),
            out@ =~= replace_underscore(tail.take(i - p)),
        decreases len - i,
    {
        let c = uri.get_char(i);
        let mapped = if c == '_' {
            ':'
        } else {
            c
        };
        crate::text::string_push(&mut out, mapped);
        proof {
            assert(tail.take(i + 1 - p) =~= tail.take(i - p).push(uri@[i as int]));
            assert(replace_underscore(tail.take(i + 1 - p)) =~= replace_underscore(
                tail.take(i - p),
            ).push(mapped));
        }
    }
    proof {
        assert(tail.take(len - p) =~= tail);
    }
    out
}

/// One ontology term: identifier, primary label, and synonyms.
#[derive(Debug)]
pub struct HpNode {
    term_id: String,
    term_label: String,
    synonyms: Vec<String>,
}

impl HpNode {
    pub closed spec fn spec_term_id(self) -> Seq<char> {
        self.term_id@
    }

    pub closed spec fn spec_term_label(self) -> Seq<char> {
        self.term_label@
    }

    pub closed spec fn spec_synonyms(self) -> Seq<Seq<char>> {
        self.synonyms@.map_values(|s: String| s@)
    }

    pub fn new(term_id: &str, lbl: &str, syns: Vec<String>) -> (r: Self)
        ensures
            r.spec_term_id() == term_id@,
            r.spec_term_label() == lbl@,
            r.spec_synonyms() == syns@.map_values(|s: String| s@),
    {
        HpNode { term_id: term_id.to_owned(), term_label: lbl.to_owned(), synonyms: syns }
    }
}

/// One is-a edge, stored as CURIEs: `source` is the child, `destination` the
/// parent.
#[derive(Debug)]
pub struct HpEdge {
    source: String,
    destination: String,
}

impl HpEdge {
    pub closed spec fn spec_source(self) -> Seq<char> {
        self.source@
    }

    pub closed spec fn spec_destination(self) -> Seq<char> {
        self.destination@
    }

    /// Build an edge from two URIs, turning each into a CURIE.
    pub fn new(s: String, d: String) -> (r: Self)
        ensures
            r.spec_source() == hp_id_of(s@),
            r.spec_destination() == hp_id_of(d@),
    {
        HpEdge { source: get_hp_id(s.as_str()), destination: get_hp_id(d.as_str()) }
    }
}

/// The view of an edge list: `(child, parent)` pairs.
pub open spec fn edge_views(edges: Seq<HpEdge>) -> Seq<(Seq<char>, Seq<char>)> {
    edges.map_values(|e: HpEdge| (e.spec_source(), e.spec_destination()))
}

/// `x` reaches `root` by following at most `n` child-to-parent edges.
pub open spec fn reach_n(
    edges: Seq<(Seq<char>, Seq<char>)>,
    root: Seq<char>,
    x: Seq<char>,
    n: nat,
) -> bool
    decreases n,
{
    x == root || (n > 0 && exists|e: int|
        0 <= e < edges.len() && (#[trigger] edges[e]).0 == x && reach_n(
            edges,
            root,
            edges[e].1,
            (n - 1) as nat,
        ))
}

/// `x` is the root or a descendant of it.
pub open spec fn spec_reachable(
    edges: Seq<(Seq<char>, Seq<char>)>,
    root: Seq<char>,
    x: Seq<char>,
) -> bool {
    exists|n: nat| reach_n(edges, root, x, n)
}

/// The root together with all its descendants.
pub open spec fn spec_descendants(edges: Seq<(Seq<char>, Seq<char>)>, root: Seq<char>) -> Set<
    Seq<char>,
> {
    Set::new(|x: Seq<char>| spec_reachable(edges, root, x))
}

/// The set is closed under following edges upward-in-text: whenever a parent
/// is in, its child is in.
pub open spec fn closed_under_edges(edges: Seq<(Seq<char>, Seq<char>)>, s: Set<Seq<char>>) -> bool {
    forall|e: int|
        0 <= e < edges.len() && s.contains((#[trigger] edges[e]).1) ==> s.contains(edges[e].0)
}

/// Anything reachable lies in every closed set that holds the root.
proof fn lemma_reach_in_closed(
    edges: Seq<(Seq<char>, Seq<char>)>,
    root: Seq<char>,
    s: Set<Seq<char>>,
    x: Seq<char>,
    n: nat,
)
    requires
        s.contains(root),
        closed_under_edges(edges, s),
        reach_n(edges, root, x, n),
    ensures
        s.contains(x),
    decreases n,
{
    if x != root {
        let e = choose|e: int|
            0 <= e < edges.len() && (#[trigger] edges[e]).0 == x && reach_n(
                edges,
                root,
                edges[e].1,
                (n - 1) as nat,
            );
        lemma_reach_in_closed(edges, root, s, edges[e].1, (n - 1) as nat);
    }
}

/// Compute the set of the root and all its descendants: saturate over the
/// edge list until no pass adds a member.
#[verifier::loop_isolation(false)]
pub fn get_descendants(edges: &Vec<HpEdge>, root: &str) -> (r: WordSet)
    ensures
        r.wf(),
        r.set_view() =~= spec_descendants(edge_views(edges@), root@),
{
    let ghost ev = edge_views(edges@);
    let mut visited = WordSet::new();
    visited.insert(root);
    proof {
        assert(reach_n(ev, root@, root@, 0));
        assert(visited.set_view() =~= Set::<Seq<char>>::empty().insert(root@));
    }
    let n_edges = edges.len();
    let ghost bound: int = 1 + edges@.len() as int;
    loop
        invariant
            visited.wf(),
            n_edges == edges@.len(),
            ev == edge_views(edges@),
            visited.set_view().contains(root@),
            forall|x: Seq<char>|
                #[trigger] visited.set_view().contains(x) ==> spec_reachable(ev, root@, x),
            forall|x: Seq<char>|
                #[trigger] visited.set_view().contains(x) ==> (x == root@ || exists|e: int|
                    0 <= e < ev.len() && (#[trigger] ev[e]).0 == x),
        decreases bound - visited.set_view().len(),
    {
        proof {
            lemma_visited_bound(visited.set_view(), ev, root@, bound);
        }
        let ghost round_start = visited.set_view();
        let mut changed = false;
        for i in 0..n_edges
            invariant
                visited.wf(),
                n_edges == edges@.len(),
                ev == edge_views(edges@),
                visited.set_view().contains(root@),
                forall|x: Seq<char>|
                    #[trigger] visited.set_view().contains(x) ==> spec_reachable(ev, root@, x),
                forall|x: Seq<char>|
                    #[trigger] visited.set_view().contains(x) ==> (x == root@ || exists|e: int|
                        0 <= e < ev.len() && (#[trigger] ev[e]).0 == x),
                round_start.subset_of(visited.set_view()),
                changed ==> round_start.len() < visited.set_view().len(),
                !changed ==> visited.set_view() == round_start,
                !changed ==> forall|e: int|
                    0 <= e < i && visited.set_view().contains((#[trigger] ev[e]).1)
                        ==> visited.set_view().contains(ev[e].0),
        {
            let dst_in = visited.contains(edges[i].destination.as_str());
            if dst_in {
                let src_in = visited.contains(edges[i].source.as_str());
                if !src_in {
                    let ghost before = visited.set_view();
                    visited.insert(edges[i].source.as_str());
                    proof {
                        broadcast use seq_to_set_is_finite;

                        let x = ev[i as int].0;
                        assert(visited.set_view() =~= before.insert(x));
                        // the new member is reachable: its parent already was
                        let y = ev[i as int].1;
                        let n = choose|n: nat| reach_n(ev, root@, y, n);
                        assert(reach_n(ev, root@, x, n + 1));
                        assert(spec_reachable(ev, root@, x));
                        assert(before.len() < visited.set_view().len()) by {
                            assert(!before.contains(x));
                            assert(before.finite());
                            vstd::set_lib::lemma_set_insert_finite_iff(before, x);
                            assert(visited.set_view().len() == before.len() + 1);
                        }
                        assert(round_start.len() <= before.len()) by {
                            lemma_len_subset(round_start, before);
                        }
                    }
                    changed = true;
                }
            }
        }
        proof {
            broadcast use seq_to_set_is_finite;

            if changed {
                assert(round_start.len() < visited.set_view().len());
            }
            lemma_visited_bound(visited.set_view(), ev, root@, bound);
        }
        if !changed {
            proof {
                assert(closed_under_edges(ev, visited.set_view()));
                assert forall|x: Seq<char>|
                    spec_descendants(ev, root@).contains(x) implies visited.set_view().contains(
                    x,
                ) by {
                    let n = choose|n: nat| reach_n(ev, root@, x, n);
                    lemma_reach_in_closed(ev, root@, visited.set_view(), x, n);
                }
            }
            return visited;
        }
    }
}

/// A visited set of root-or-sources is no larger than one plus the number of
/// edges.
proof fn lemma_visited_bound(
    s: Set<Seq<char>>,
    ev: Seq<(Seq<char>, Seq<char>)>,
    root: Seq<char>,
    bound: int,
)
    requires
        bound == 1 + ev.len(),
        s.finite(),
        forall|x: Seq<char>|
            #[trigger] s.contains(x) ==> (x == root || exists|e: int|
                0 <= e < ev.len() && (#[trigger] ev[e]).0 == x),
    ensures
        s.len() <= bound,
{
    let sources = ev.map_values(|e: (Seq<char>, Seq<char>)| e.0);
    let big = sources.to_set().insert(root);
    assert(s.subset_of(big)) by {
        assert forall|x: Seq<char>| #[trigger] s.contains(x) implies big.contains(x) by {
            if x != root {
                let e = choose|e: int| 0 <= e < ev.len() && (#[trigger] ev[e]).0 == x;
                assert(sources[e] == x);
                assert(sources.to_set().contains(x));
            }
        }
    }
    sources.lemma_cardinality_of_set();
    broadcast use seq_to_set_is_finite;

    assert(big.len() <= sources.to_set().len() + 1);
    lemma_len_subset(s, big);
}

/// A surface form is kept when it is at least four characters long and its
/// lowercased form is not a known false-positive.
pub open spec fn surface_ok(s: Seq<char>) -> bool {
    s.len() >= 4 && lc_seq(s) != "negative"@ && lc_seq(s) != "weakness"@
}

pub fn exec_surface_ok(s: &str) -> (r: bool)
    ensures
        r == surface_ok(s@),
{
    if s.unicode_len() < 4 {
        return false;
    }
    let lc = lc_str(s);
    !str_eq(lc.as_str(), "negative") && !str_eq(lc.as_str(), "weakness")
}

/// Insert `(k, v)` into the entry list: replace the value in place when the
/// key is present, append otherwise.
pub open spec fn insert_replace(
    m: Seq<(Seq<char>, Seq<char>)>,
    k: Seq<char>,
    v: Seq<char>,
) -> Seq<(Seq<char>, Seq<char>)>
    decreases m.len(),
{
    if m.len() == 0 {
        seq![(k, v)]
    } else if m[0].0 == k {
        seq![(k, v)] + m.drop_first()
    } else {
        seq![m[0]] + insert_replace(m.drop_first(), k, v)
    }
}

/// The dictionary entries of one node, given the descendant set `d`: the
/// lowercased label and synonyms that pass the surface filter, as insertions
/// applied left to right.
pub open spec fn node_surfaces(node: HpNode) -> Seq<Seq<char>> {
    seq![node.spec_term_label()] + node.spec_synonyms()
}

/// Fold the surfaces of one node into the entry list.
pub open spec fn apply_node(
    m: Seq<(Seq<char>, Seq<char>)>,
    node: HpNode,
    d: Set<Seq<char>>,
) -> Seq<(Seq<char>, Seq<char>)> {
    if d.contains(node.spec_term_id()) && node.spec_term_id().contains(':') {
        apply_surfaces(m, node_surfaces(node), node.spec_term_id(), 0)
    } else {
        m
    }
}

/// Fold the surfaces from position `i` on into the entry list.
pub open spec fn apply_surfaces(
    m: Seq<(Seq<char>, Seq<char>)>,
    surfaces: Seq<Seq<char>>,
    tid: Seq<char>,
    i: int,
) -> Seq<(Seq<char>, Seq<char>)>
    decreases surfaces.len() - i,
{
    if i < 0 || i >= surfaces.len() {
        m
    } else {
        let m2 = if surface_ok(surfaces[i]) {
            insert_replace(m, lc_seq(surfaces[i]), tid)
        } else {
            m
        };
        apply_surfaces(m2, surfaces, tid, i + 1)
    }
}

/// Fold the nodes from position `i` on into the entry list.
pub open spec fn apply_nodes(
    m: Seq<(Seq<char>, Seq<char>)>,
    nodes: Seq<HpNode>,
    d: Set<Seq<char>>,
    i: int,
) -> Seq<(Seq<char>, Seq<char>)>
    decreases nodes.len() - i,
{
    if i < 0 || i >= nodes.len() {
        m
    } else {
        apply_nodes(apply_node(m, nodes[i], d), nodes, d, i + 1)
    }
}

/// The label-map fold over bare pair lists.
pub open spec fn label_pairs_from(
    pairs: Seq<(Seq<char>, Seq<char>)>,
    nodes: Seq<HpNode>,
    i: int,
) -> Seq<(Seq<char>, Seq<char>)>
    decreases nodes.len() - i,
{
    if i < 0 || i >= nodes.len() {
        pairs
    } else {
        let k = nodes[i].spec_term_id();
        let next = if crate::hpo::term_label_map::key_index(pairs, k, 0) < pairs.len() {
            pairs
        } else {
            pairs.push((k, nodes[i].spec_term_label()))
        };
        label_pairs_from(next, nodes, i + 1)
    }
}

/// A plain ontology: nodes, edges, and the release version text.
#[derive(Debug)]
pub struct SimpleOntology {
    nodes: Vec<HpNode>,
    edges: Vec<HpEdge>,
    version: String,
}

impl SimpleOntology {
    pub closed spec fn spec_nodes(self) -> Seq<HpNode> {
        self.nodes@
    }

    pub closed spec fn spec_edges(self) -> Seq<HpEdge> {
        self.edges@
    }

    pub closed spec fn spec_version(self) -> Seq<char> {
        self.version@
    }

    pub fn new(e: Vec<HpEdge>, n: Vec<HpNode>, ver: &str) -> (r: Self)
        ensures
            r.spec_nodes() == n@,
            r.spec_edges() == e@,
            r.spec_version() == ver@,
    {
        SimpleOntology { nodes: n, edges: e, version: ver.to_owned() }
    }

    /// The map from term identifier to primary label, over all nodes; the
    /// first node with an identifier provides its label.
    pub fn label_map(&self) -> (r: TermLabelMap)
        ensures
            r.pairs_view() == label_pairs_from(
                Seq::<(Seq<char>, Seq<char>)>::empty(),
                self.spec_nodes(),
                0,
            ),
    {
        let mut m = TermLabelMap::new();
        let n = self.nodes.len();
        proof {
            assert(m.pairs_view() =~= Seq::<(Seq<char>, Seq<char>)>::empty());
        }
        for i in 0..n
            invariant
                n == self.nodes@.len(),
                label_pairs_from(Seq::<(Seq<char>, Seq<char>)>::empty(), self.spec_nodes(), 0)
                    == label_pairs_from(m.pairs_view(), self.spec_nodes(), i as int),
        {
            let ghost pre = m.pairs_view();
            m.insert(self.nodes[i].term_id.as_str(), self.nodes[i].term_label.as_str());
            proof {
                crate::hpo::term_label_map::lemma_key_index(
                    pre,
                    self.spec_nodes()[i as int].spec_term_id(),
                    0,
                );
            }
        }
        m
    }
}

/// Builds the dictionary entries from a plain ontology.
#[derive(Debug)]
pub struct SimpleHpoParser {
    simple_ontology: SimpleOntology,
}

impl SimpleHpoParser {
    pub closed spec fn spec_ontology(self) -> SimpleOntology {
        self.simple_ontology
    }

    /// Wrap an already loaded plain ontology.
    pub fn new(ontology: SimpleOntology) -> (r: Self)
        ensures
            r.spec_ontology() == ontology,
    {
        SimpleHpoParser { simple_ontology: ontology }
    }

    /// The wrapped ontology.
    pub fn ontology(&self) -> (r: &SimpleOntology)
        ensures
            *r == self.spec_ontology(),
    {
        &self.simple_ontology
    }

    /// The dictionary entries: for every term in the phenotype subtree, the
    /// lowercased label and synonyms that pass the surface filter, keyed by
    /// text, a later identical text replacing the earlier entry.
    #[verifier::loop_isolation(false)]
    pub fn get_text_to_term_map(&self) -> (r: Vec<(String, TermId)>)
        ensures
            r@.map_values(|p: (String, TermId)| (p.0@, p.1.spec_value())) =~= apply_nodes(
                Seq::<(Seq<char>, Seq<char>)>::empty(),
                self.spec_ontology().spec_nodes(),
                spec_descendants(
                    edge_views(self.spec_ontology().spec_edges()),
                    spec_phenotype_root(),
                ),
                0,
            ),
    {
        let onto = &self.simple_ontology;
        let descendants = get_descendants(&onto.edges, "HP:0000118");
        let ghost d = spec_descendants(
            edge_views(self.spec_ontology().spec_edges()),
            spec_phenotype_root(),
        );
        proof {
            reveal_strlit("HP:0000118");
            assert(descendants.set_view() =~= d);
        }
        let mut map: Vec<(String, TermId)> = Vec::new();
        let n = onto.nodes.len();
        let ghost nodes = onto.nodes@;
        proof {
            assert(map@.map_values(|p: (String, TermId)| (p.0@, p.1.spec_value())) =~= Seq::<
                (Seq<char>, Seq<char>),
            >::empty());
        }
        for i in 0..n
            invariant
                n == nodes.len(),
                nodes == self.spec_ontology().spec_nodes(),
                descendants.wf(),
                descendants.set_view() == d,
                apply_nodes(Seq::<(Seq<char>, Seq<char>)>::empty(), nodes, d, 0) == apply_nodes(
                    map@.map_values(|p: (String, TermId)| (p.0@, p.1.spec_value())),
                    nodes,
                    d,
                    i as int,
                ),
        {
            let node = &onto.nodes[i];
            if descendants.contains(node.term_id.as_str()) {
                match TermId::from_curie(node.term_id.as_str()) {
                    Some(tid) => {
                        let ghost m0 = map@.map_values(
                            |p: (String, TermId)| (p.0@, p.1.spec_value()),
                        );
                        let ghost surfaces = node_surfaces(nodes[i as int]);
                        // the label, then every synonym
                        if exec_surface_ok(node.term_label.as_str()) {
                            let key = lc_str(node.term_label.as_str());
                            insert_replace_exec(&mut map, key, tid.clone());
                        }
                        proof {
                            assert(surfaces[0] == nodes[i as int].spec_term_label());
                            assert(map@.map_values(|p: (String, TermId)| (p.0@, p.1.spec_value()))
                                == (if surface_ok(surfaces[0]) {
                                insert_replace(m0, lc_seq(surfaces[0]), tid.spec_value())
                            } else {
                                m0
                            }));
                        }
                        let n_syn = node.synonyms.len();
                        for si in 0..n_syn
                            invariant
                                n_syn == node.synonyms@.len(),
                                surfaces == node_surfaces(nodes[i as int]),
                                surfaces.len() == 1 + n_syn,
                                tid.spec_value() == nodes[i as int].spec_term_id(),
                                apply_surfaces(m0, surfaces, tid.spec_value(), 0) == apply_surfaces(
                                    map@.map_values(|p: (String, TermId)| (p.0@, p.1.spec_value())),
                                    surfaces,
                                    tid.spec_value(),
                                    1 + si as int,
                                ),
                        {
                            let ghost m1 = map@.map_values(
                                |p: (String, TermId)| (p.0@, p.1.spec_value()),
                            );
                            proof {
                                assert(surfaces[1 + si as int] == nodes[i as int].spec_synonyms()[si as int]);
                            }
                            if exec_surface_ok(node.synonyms[si].as_str()) {
                                let key = lc_str(node.synonyms[si].as_str());
                                insert_replace_exec(&mut map, key, tid.clone());
                            }
                        }
                        proof {
                            assert(apply_surfaces(
                                map@.map_values(|p: (String, TermId)| (p.0@, p.1.spec_value())),
                                surfaces,
                                tid.spec_value(),
                                1 + n_syn as int,
                            ) == map@.map_values(|p: (String, TermId)| (p.0@, p.1.spec_value())));
                            assert(d.contains(nodes[i as int].spec_term_id()));
                            assert(nodes[i as int].spec_term_id().contains(':'));
                            assert(apply_node(m0, nodes[i as int], d) == map@.map_values(
                                |p: (String, TermId)| (p.0@, p.1.spec_value()),
                            ));
                        }
                    },
                    None => {
                        proof {
                            assert(!nodes[i as int].spec_term_id().contains(':'));
                        }
                    },
                }
            } else {
                proof {
                    assert(!d.contains(nodes[i as int].spec_term_id()));
                }
            }
        }
        map
    }
}

/// Replace the value under `key` in place, or append the pair.
#[verifier::loop_isolation(false)]
fn insert_replace_exec(map: &mut Vec<(String, TermId)>, key: String, tid: TermId)
    ensures
        final(map)@.map_values(|p: (String, TermId)| (p.0@, p.1.spec_value())) == insert_replace(
            old(map)@.map_values(|p: (String, TermId)| (p.0@, p.1.spec_value())),
            key@,
            tid.spec_value(),
        ),
{
    let ghost m0 = map@.map_values(|p: (String, TermId)| (p.0@, p.1.spec_value()));
    let n = map.len();
    for i in 0..n
        invariant
            n == map@.len(),
            m0 == map@.map_values(|p: (String, TermId)| (p.0@, p.1.spec_value())),
            forall|j: int| 0 <= j < i ==> (#[trigger] m0[j]).0 != key@,
    {
        if str_eq(map[i].0.as_str(), key.as_str()) {
            proof {
                assert(m0[i as int].0 == key@);
            }
            set_value(map, i, tid);
            proof {
                lemma_insert_replace_at(m0, key@, tid.spec_value(), i as int);
                assert(map@.map_values(|p: (String, TermId)| (p.0@, p.1.spec_value()))
                    =~= m0.update(i as int, (key@, tid.spec_value())));
            }
            return ;
        }
    }
    map.push((key, tid));
    proof {
        lemma_insert_replace_append(m0, key@, tid.spec_value());
        assert(map@.map_values(|p: (String, TermId)| (p.0@, p.1.spec_value())) =~= m0.push(
            (key@, tid.spec_value()),
        ));
    }
}

/// Overwrite the value at position `i`.
fn set_value(map: &mut Vec<(String, TermId)>, i: usize, tid: TermId)
    requires
        i < old(map)@.len(),
    ensures
        final(map)@.len() == old(map)@.len(),
        final(map)@[i as int].0 == old(map)@[i as int].0,
        final(map)@[i as int].1 == tid,
        forall|j: int| 0 <= j < old(map)@.len() && j != i ==> final(map)@[j] == old(map)@[j],
{
    let pair = &mut map[i];
    pair.1 = tid;
}

/// Replacing at the position of the key rewrites exactly that pair.
proof fn lemma_insert_replace_at(m: Seq<(Seq<char>, Seq<char>)>, k: Seq<char>, v: Seq<char>, i: int)
    requires
        0 <= i < m.len(),
        m[i].0 == k,
        forall|j: int| 0 <= j < i ==> (#[trigger] m[j]).0 != k,
    ensures
        insert_replace(m, k, v) =~= m.update(i, (k, v)),
    decreases i,
{
    if i == 0 {
        assert(insert_replace(m, k, v) =~= seq![(k, v)] + m.drop_first());
    } else {
        lemma_insert_replace_at(m.drop_first(), k, v, i - 1);
        assert(insert_replace(m, k, v) =~= seq![m[0]] + m.drop_first().update(i - 1, (k, v)));
    }
}

/// Inserting an absent key appends the pair.
proof fn lemma_insert_replace_append(m: Seq<(Seq<char>, Seq<char>)>, k: Seq<char>, v: Seq<char>)
    requires
        forall|j: int| 0 <= j < m.len() ==> (#[trigger] m[j]).0 != k,
    ensures
        insert_replace(m, k, v) =~= m.push((k, v)),
    decreases m.len(),
{
    if m.len() == 0 {
    } else {
        lemma_insert_replace_append(m.drop_first(), k, v);
        assert(insert_replace(m, k, v) =~= seq![m[0]] + m.drop_first().push((k, v)));
    }
}

} // verus!
