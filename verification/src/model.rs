//! Graph model construction.
//!
//! Node identities and attribute text are byte strings. A model is built
//! once from plain node declarations and edge chains: nodes get dense
//! indices in first-seen order (a later declaration of an identity already
//! seen keeps the index and replaces the attributes), chains of k
//! endpoints expand to k-1 directed edges, and an edge endpoint with no
//! matching declaration is a fatal `MalformedGraphError`.

use vstd::prelude::*;

verus! {

/// One parsed node declaration: an identity and its (name, value) attributes.
pub struct NodeDecl {
    pub id: Vec<u8>,
    pub attrs: Vec<(Vec<u8>, Vec<u8>)>,
}

/// An edge endpoint referenced an identity with no node declaration.
#[derive(Debug)]
pub struct MalformedGraphError {
    pub missing: Vec<u8>,
}

/// The immutable graph model: dense node indices, per-node attributes,
/// and directed edges as index pairs.
#[derive(Debug)]
pub struct GraphModel {
    pub ids: Vec<Vec<u8>>,
    pub attrs: Vec<Vec<(Vec<u8>, Vec<u8>)>>,
    pub edges: Vec<(usize, usize)>,
}

/// The byte-string views of a sequence of byte vectors.
pub open spec fn bytes_views(v: Seq<Vec<u8>>) -> Seq<Seq<u8>> {
    Seq::new(v.len(), |i: int| v[i]@)
}

/// The views of one attribute list.
pub open spec fn attrs_view(a: Seq<(Vec<u8>, Vec<u8>)>) -> Seq<(Seq<u8>, Seq<u8>)> {
    Seq::new(a.len(), |i: int| (a[i].0@, a[i].1@))
}

/// The views of a table of attribute lists.
pub open spec fn attr_table(s: Seq<Vec<(Vec<u8>, Vec<u8>)>>) -> Seq<Seq<(Seq<u8>, Seq<u8>)>> {
    Seq::new(s.len(), |i: int| attrs_view(s[i]@))
}

/// The views of one chain of endpoint identities.
pub open spec fn chain_views(c: Seq<Vec<u8>>) -> Seq<Seq<u8>> {
    bytes_views(c)
}

/// The views of all chains.
pub open spec fn chains_views(cs: Seq<Vec<Vec<u8>>>) -> Seq<Seq<Seq<u8>>> {
    Seq::new(cs.len(), |i: int| chain_views(cs[i]@))
}

/// Whether `id` occurs in `ids`.
pub open spec fn id_in(ids: Seq<Seq<u8>>, id: Seq<u8>) -> bool {
    exists|j: int| 0 <= j < ids.len() && ids[j] == id
}

/// The index of `id` in `ids` (meaningful when the entries are unique).
pub open spec fn idx_of(ids: Seq<Seq<u8>>, id: Seq<u8>) -> int {
    choose|j: int| 0 <= j < ids.len() && ids[j] == id
}

/// No two entries of `ids` are equal.
pub open spec fn ids_unique(ids: Seq<Seq<u8>>) -> bool {
    forall|p: int, q: int| 0 <= p < q < ids.len() ==> ids[p] != ids[q]
}

/// With unique entries, any index holding `id` is `idx_of(ids, id)`.
pub proof fn lemma_idx_of_unique(ids: Seq<Seq<u8>>, id: Seq<u8>, i: int)
    requires
        0 <= i < ids.len(),
        ids[i] == id,
        ids_unique(ids),
    ensures
        idx_of(ids, id) == i,
{
    let j = idx_of(ids, id);
    assert(0 <= j < ids.len() && ids[j] == id);
    if j < i {
        assert(ids[j] != ids[i]);
    } else if i < j {
        assert(ids[i] != ids[j]);
    }
}

/// Node identities of the first `k` declarations, dense and in first-seen
/// order; a repeated identity is ignored.
pub open spec fn ids_upto(decls: Seq<NodeDecl>, k: int) -> Seq<Seq<u8>>
    decreases k,
{
    if k <= 0 {
        Seq::empty()
    } else {
        let prev = ids_upto(decls, k - 1);
        if id_in(prev, decls[k - 1].id@) {
            prev
        } else {
            prev.push(decls[k - 1].id@)
        }
    }
}

/// Attribute lists of the first `k` declarations, parallel to `ids_upto`:
/// a repeated identity keeps its index, but its attributes are replaced
/// by the later declaration's.
pub open spec fn attrs_upto(decls: Seq<NodeDecl>, k: int) -> Seq<Seq<(Seq<u8>, Seq<u8>)>>
    decreases k,
{
    if k <= 0 {
        Seq::empty()
    } else {
        let prev_ids = ids_upto(decls, k - 1);
        let prev = attrs_upto(decls, k - 1);
        if id_in(prev_ids, decls[k - 1].id@) {
            prev.update(idx_of(prev_ids, decls[k - 1].id@), attrs_view(decls[k - 1].attrs@))
        } else {
            prev.push(attrs_view(decls[k - 1].attrs@))
        }
    }
}

/// Directed index pairs contributed by `chain` from position `t` on.
pub open spec fn edges_from(ids: Seq<Seq<u8>>, chain: Seq<Seq<u8>>, t: int) -> Seq<(int, int)>
    decreases chain.len() - t,
{
    if t < 0 || t + 1 >= chain.len() {
        Seq::empty()
    } else {
        seq![(idx_of(ids, chain[t]), idx_of(ids, chain[t + 1]))] + edges_from(ids, chain, t + 1)
    }
}

/// Directed index pairs contributed by the first `c` chains.
pub open spec fn edges_upto(ids: Seq<Seq<u8>>, chains: Seq<Seq<Seq<u8>>>, c: int) -> Seq<(int, int)>
    decreases c,
{
    if c <= 0 {
        Seq::empty()
    } else {
        edges_upto(ids, chains, c - 1) + edges_from(ids, chains[c - 1], 0)
    }
}

/// Every endpoint of `chain` (when it forms at least one edge) is a known identity.
pub open spec fn endpoints_known(ids: Seq<Seq<u8>>, chain: Seq<Seq<u8>>) -> bool {
    chain.len() >= 2 ==> forall|t: int| 0 <= t < chain.len() ==> id_in(ids, #[trigger] chain[t])
}

/// Every endpoint of every chain is a known identity.
pub open spec fn all_endpoints_known(ids: Seq<Seq<u8>>, chains: Seq<Seq<Seq<u8>>>) -> bool {
    forall|c: int| 0 <= c < chains.len() ==> endpoints_known(ids, #[trigger] chains[c])
}

/// `id` stands as an endpoint in some chain that forms at least one edge.
pub open spec fn endpoint_of(chains: Seq<Seq<Seq<u8>>>, id: Seq<u8>) -> bool {
    exists|c: int, t: int|
        0 <= c < chains.len() && 0 <= t < chains[c].len() && chains[c].len() >= 2 && chains[c][t]
            == id
}

/// The integer views of an index-pair list.
pub open spec fn pairs_int(s: Seq<(usize, usize)>) -> Seq<(int, int)> {
    Seq::new(s.len(), |i: int| (s[i].0 as int, s[i].1 as int))
}

impl GraphModel {
    /// Number of nodes.
    pub open spec fn node_count(self) -> int {
        self.ids@.len() as int
    }

    /// Well-formedness: one attribute list per node, unique identities,
    /// and every edge endpoint a valid index.
    pub open spec fn wf(self) -> bool {
        &&& self.attrs@.len() == self.ids@.len()
        &&& ids_unique(bytes_views(self.ids@))
        &&& forall|e: int|
            0 <= e < self.edges@.len() ==> (#[trigger] self.edges@[e]).0 < self.ids@.len()
                && self.edges@[e].1 < self.ids@.len()
    }
}

/// Byte-string equality.
pub fn bytes_eq(a: &Vec<u8>, b: &Vec<u8>) -> (r: bool)
    ensures
        r <==> a@ == b@,
{
    if a.len() != b.len() {
        return false;
    }
    let mut i: usize = 0;
    while i < a.len()
        invariant
            i <= a.len(),
            a.len() == b.len(),
            forall|j: int| 0 <= j < i ==> a@[j] == b@[j],
        decreases a.len() - i,
    {
        if a[i] != b[i] {
            return false;
        }
        i = i + 1;
    }
    proof {
        assert(a@ =~= b@);
    }
    true
}

/// First index of `id` in `ids`, if any.
pub fn find_index(ids: &Vec<Vec<u8>>, id: &Vec<u8>) -> (r: Option<usize>)
    ensures
        match r {
            Some(i) => 0 <= i < ids@.len() && (#[trigger] ids@[i as int])@ == id@ && forall|j: int|
                0 <= j < i ==> (#[trigger] ids@[j])@ != id@,
            None => forall|j: int| 0 <= j < ids@.len() ==> (#[trigger] ids@[j])@ != id@,
        },
{
    let mut i: usize = 0;
    while i < ids.len()
        invariant
            i <= ids.len(),
            forall|j: int| 0 <= j < i ==> (#[trigger] ids@[j])@ != id@,
        decreases ids.len() - i,
    {
        if bytes_eq(&ids[i], id) {
            return Some(i);
        }
        i = i + 1;
    }
    None
}

/// A fresh byte vector with the same contents.
pub fn copy_bytes(a: &Vec<u8>) -> (r: Vec<u8>)
    ensures
        r@ == a@,
{
    let mut r: Vec<u8> = Vec::new();
    let mut i: usize = 0;
    while i < a.len()
        invariant
            i <= a.len(),
            r@.len() == i,
            forall|j: int| 0 <= j < i ==> r@[j] == a@[j],
        decreases a.len() - i,
    {
        r.push(a[i]);
        i = i + 1;
    }
    proof {
        assert(r@ =~= a@);
    }
    r
}

/// A fresh attribute list with the same contents.
pub fn copy_attrs(a: &Vec<(Vec<u8>, Vec<u8>)>) -> (r: Vec<(Vec<u8>, Vec<u8>)>)
    ensures
        attrs_view(r@) == attrs_view(a@),
        r@.len() == a@.len(),
{
    let mut r: Vec<(Vec<u8>, Vec<u8>)> = Vec::new();
    let mut i: usize = 0;
    while i < a.len()
        invariant
            i <= a.len(),
            r@.len() == i,
            forall|j: int|
                0 <= j < i ==> (#[trigger] r@[j]).0@ == a@[j].0@ && r@[j].1@ == a@[j].1@,
        decreases a.len() - i,
    {
        let name = copy_bytes(&a[i].0);
        let value = copy_bytes(&a[i].1);
        r.push((name, value));
        i = i + 1;
    }
    proof {
        assert(attrs_view(r@) =~= attrs_view(a@));
    }
    r
}

/// Build the graph model from node declarations and edge chains.
///
/// Nodes are indexed in first-seen order; a repeated identity keeps its
/// index and takes the later declaration's attributes. Each chain of
/// k >= 2 endpoints expands to k-1 directed edges. The build fails, with
/// the offending identity, exactly when some chain endpoint has no node
/// declaration.
pub fn build_model(decls: &Vec<NodeDecl>, chains: &Vec<Vec<Vec<u8>>>) -> (r: Result<
    GraphModel,
    MalformedGraphError,
>)
    ensures
        match r {
            Ok(m) => {
                &&& m.wf()
                &&& bytes_views(m.ids@) == ids_upto(decls@, decls@.len() as int)
                &&& attr_table(m.attrs@) == attrs_upto(decls@, decls@.len() as int)
                &&& pairs_int(m.edges@) == edges_upto(
                    bytes_views(m.ids@),
                    chains_views(chains@),
                    chains@.len() as int,
                )
                &&& all_endpoints_known(bytes_views(m.ids@), chains_views(chains@))
            },
            Err(e) => {
                &&& !id_in(ids_upto(decls@, decls@.len() as int), e.missing@)
                &&& endpoint_of(chains_views(chains@), e.missing@)
                &&& !all_endpoints_known(
                    ids_upto(decls@, decls@.len() as int),
                    chains_views(chains@),
                )
            },
        },
{
    let mut ids: Vec<Vec<u8>> = Vec::new();
    let mut attrs: Vec<Vec<(Vec<u8>, Vec<u8>)>> = Vec::new();
    let mut k: usize = 0;
    while k < decls.len()
        invariant
            k <= decls.len(),
            attrs@.len() == ids@.len(),
            bytes_views(ids@) == ids_upto(decls@, k as int),
            attr_table(attrs@) == attrs_upto(decls@, k as int),
            ids_unique(bytes_views(ids@)),
        decreases decls.len() - k,
    {
        let d = &decls[k];
        match find_index(&ids, &d.id) {
            Some(i) => {
                proof {
                    assert(bytes_views(ids@)[i as int] == d.id@);
                    assert(id_in(bytes_views(ids@), d.id@));
                    lemma_idx_of_unique(bytes_views(ids@), d.id@, i as int);
                }
                let ghost old_attrs = attrs@;
                let nattrs = copy_attrs(&d.attrs);
                attrs.set(i, nattrs);
                proof {
                    assert(attr_table(attrs@) =~= attr_table(old_attrs).update(
                        i as int,
                        attrs_view(d.attrs@),
                    ));
                }
            },
            None => {
                proof {
                    assert(!id_in(bytes_views(ids@), d.id@));
                }
                let ghost old_ids = ids@;
                let ghost old_attrs = attrs@;
                let nid = copy_bytes(&d.id);
                let nattrs = copy_attrs(&d.attrs);
                ids.push(nid);
                attrs.push(nattrs);
                proof {
                    assert(bytes_views(ids@) =~= bytes_views(old_ids).push(d.id@));
                    assert(attr_table(attrs@) =~= attr_table(old_attrs).push(
                        attrs_view(d.attrs@),
                    ));
                }
            },
        }
        k = k + 1;
    }
    let ghost idsv = bytes_views(ids@);
    proof {
        assert(idsv == ids_upto(decls@, decls@.len() as int));
    }
    let ghost chv = chains_views(chains@);
    let mut edges: Vec<(usize, usize)> = Vec::new();
    let mut c: usize = 0;
    while c < chains.len()
        invariant
            c <= chains.len(),
            attrs@.len() == ids@.len(),
            idsv == bytes_views(ids@),
            idsv == ids_upto(decls@, decls@.len() as int),
            chv == chains_views(chains@),
            ids_unique(idsv),
            pairs_int(edges@) == edges_upto(idsv, chv, c as int),
            forall|e: int|
                0 <= e < edges@.len() ==> (#[trigger] edges@[e]).0 < ids@.len() && edges@[e].1
                    < ids@.len(),
            forall|c2: int| 0 <= c2 < c ==> endpoints_known(idsv, #[trigger] chv[c2]),
        decreases chains.len() - c,
    {
        let chain = &chains[c];
        let ghost chainv = chv[c as int];
        proof {
            assert(chainv =~= chain_views(chain@));
        }
        if chain.len() >= 2 {
            let mut t: usize = 0;
            while t + 1 < chain.len()
                invariant
                    chain.len() >= 2,
                    t + 1 <= chain.len(),
                    c < chains.len(),
                    chain == &chains@[c as int],
                    chainv == chv[c as int],
                    chainv.len() == chain@.len(),
                    forall|u: int| 0 <= u < chainv.len() ==> chainv[u] == (#[trigger] chain@[u])@,
                    attrs@.len() == ids@.len(),
                    idsv == bytes_views(ids@),
                    idsv == ids_upto(decls@, decls@.len() as int),
                    chv == chains_views(chains@),
                    ids_unique(idsv),
                    pairs_int(edges@) + edges_from(idsv, chainv, t as int) == edges_upto(
                        idsv,
                        chv,
                        c as int + 1,
                    ),
                    forall|e: int|
                        0 <= e < edges@.len() ==> (#[trigger] edges@[e]).0 < ids@.len()
                            && edges@[e].1 < ids@.len(),
                    forall|c2: int| 0 <= c2 < c ==> endpoints_known(idsv, #[trigger] chv[c2]),
                    t > 0 ==> forall|t2: int| 0 <= t2 <= t ==> id_in(idsv, #[trigger] chainv[t2]),
                decreases chain.len() - t,
            {
                let ia = find_index(&ids, &chain[t]);
                let ib = find_index(&ids, &chain[t + 1]);
                match (ia, ib) {
                    (Some(i), Some(j)) => {
                        proof {
                            assert(idsv[i as int] == chainv[t as int]);
                            assert(idsv[j as int] == chainv[t as int + 1]);
                            lemma_idx_of_unique(idsv, chainv[t as int], i as int);
                            lemma_idx_of_unique(idsv, chainv[t as int + 1], j as int);
                            assert(id_in(idsv, chainv[t as int]));
                            assert(id_in(idsv, chainv[t as int + 1]));
                        }
                        let ghost old_edges = edges@;
                        edges.push((i, j));
                        proof {
                            let p = (i as int, j as int);
                            assert(pairs_int(edges@) =~= pairs_int(old_edges).push(p));
                            assert(edges_from(idsv, chainv, t as int) == seq![p] + edges_from(
                                idsv,
                                chainv,
                                t as int + 1,
                            ));
                            assert(pairs_int(old_edges).push(p) =~= pairs_int(old_edges) + seq![p]);
                            assert((pairs_int(old_edges) + seq![p]) + edges_from(
                                idsv,
                                chainv,
                                t as int + 1,
                            ) =~= pairs_int(old_edges) + (seq![p] + edges_from(
                                idsv,
                                chainv,
                                t as int + 1,
                            )));
                        }
                    },
                    (None, _) => {
                        let missing = copy_bytes(&chain[t]);
                        proof {
                            assert(!id_in(idsv, chainv[t as int]));
                            assert(endpoint_of(chv, chainv[t as int]));
                            assert(!endpoints_known(idsv, chv[c as int]));
                        }
                        return Err(MalformedGraphError { missing });
                    },
                    (_, None) => {
                        let missing = copy_bytes(&chain[t + 1]);
                        proof {
                            assert(!id_in(idsv, chainv[t as int + 1]));
                            assert(endpoint_of(chv, chainv[t as int + 1]));
                            assert(!endpoints_known(idsv, chv[c as int]));
                        }
                        return Err(MalformedGraphError { missing });
                    },
                }
                t = t + 1;
            }
            proof {
                assert(edges_from(idsv, chainv, (chain@.len() - 1) as int) =~= Seq::<(
                    int,
                    int,
                )>::empty());
                assert(pairs_int(edges@) + Seq::<(int, int)>::empty() =~= pairs_int(edges@));
                assert(endpoints_known(idsv, chainv));
            }
        } else {
            proof {
                assert(edges_from(idsv, chainv, 0) =~= Seq::<(int, int)>::empty());
                assert(pairs_int(edges@) + Seq::<(int, int)>::empty() =~= pairs_int(edges@));
                assert(edges_upto(idsv, chv, c as int + 1) == edges_upto(idsv, chv, c as int)
                    + edges_from(idsv, chainv, 0));
                assert(endpoints_known(idsv, chainv));
            }
        }
        c = c + 1;
    }
    Ok(GraphModel { ids, attrs, edges })
}

} // verus!
