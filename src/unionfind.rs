//! Disjoint sets over `0 .. n`, provided by petgraph's `UnionFind`.
use petgraph::unionfind::UnionFind;
use vstd::prelude::*;

verus! {

#[verifier::external_type_specification]
#[verifier::external_body]
#[verifier::reject_recursive_types(K)]
pub struct ExUnionFind<K>(UnionFind<K>);

/// The representative that each element's set currently has, indexed by
/// element.
pub uninterp spec fn uf_roots(u: UnionFind<usize>) -> Seq<usize>;

/// How the representatives change when the sets of `x` and `y` are joined:
/// the joined set is represented by one of its two former representatives,
/// and every other set keeps its representative.
pub open spec fn joined(before: Seq<usize>, after: Seq<usize>, x: int, y: int) -> bool {
    let rx = before[x];
    let ry = before[y];
    &&& after.len() == before.len()
    &&& after[x] == rx || after[x] == ry
    &&& forall|z: int|
        0 <= z < before.len() ==> if before[z] == rx || before[z] == ry {
            #[trigger] after[z] == after[x]
        } else {
            after[z] == before[z]
        }
}

/// Relies on petgraph's `UnionFind::new`: `n` singleton sets, each element
/// its own representative.
#[verifier::external_body]
pub(crate) fn uf_new(n: usize) -> (u: UnionFind<usize>)
    ensures
        uf_roots(u).len() == n,
        forall|x: int| 0 <= x < n ==> #[trigger] uf_roots(u)[x] == x,
{
    UnionFind::new(n)
}

/// Relies on petgraph's `UnionFind::find`: it follows parent links up to the
/// representative of the set of `x`, and panics when `x` is out of bounds.
#[verifier::external_body]
pub(crate) fn uf_find(u: &UnionFind<usize>, x: usize) -> (r: usize)
    requires
        x < uf_roots(*u).len(),
    ensures
        r == uf_roots(*u)[x as int],
{
    u.find(x)
}

/// Relies on petgraph's `UnionFind::union`: it makes one of the two
/// representatives the parent of the other (nothing when they are equal);
/// the path halving done by `find_mut` on the way moves no representative.
/// It panics when `x` or `y` is out of bounds.
#[verifier::external_body]
pub(crate) fn uf_union(u: &mut UnionFind<usize>, x: usize, y: usize)
    requires
        x < uf_roots(*old(u)).len(),
        y < uf_roots(*old(u)).len(),
    ensures
        joined(uf_roots(*old(u)), uf_roots(*final(u)), x as int, y as int),
{
    u.union(x, y);
}

} // verus!
