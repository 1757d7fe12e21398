//! The standing guarantees of the allocation stores, written out as
//! proved statements rather than left implicit in the operations'
//! contracts.

use vstd::prelude::*;

use crate::asn::asn_assignment_matches;
use crate::asn::asn_pool_matches;
use crate::asn::asn_space_matches;
use crate::asn::AssignmentAsn;
use crate::asn::AssignmentPoolAsn;
use crate::asn::AssignmentSpaceAsn;
use crate::engine::contained;
use crate::engine::has_id;
use crate::engine::overlaps;
use crate::engine::pool_under_space;
use crate::engine::row_at_id;
use crate::engine::Engine;
use crate::engine::Row;
use crate::inet::prefix_block_contains;
use crate::ipv4::ipv4_space_matches;
use crate::ipv4::AssignmentSpaceIpv4;
use crate::ipv4::Ipv4AssignmentStore;
use crate::ipv6::ipv6_space_matches;
use crate::ipv6::AssignmentSpaceIpv6;
use crate::ipv6::Ipv6AssignmentStore;

verus! {

/// In a well-formed store, every pool's range is fully contained in its
/// parent space's range, and every assignment's range in its parent
/// pool's. (A create that would break this fails and changes nothing, as
/// the create operations' contracts state.)
pub proof fn lemma_children_contained(e: Engine, i: int, j: int)
    requires
        e.wf(),
        0 <= i < e.pool_rows().len(),
        0 <= j < e.assignment_rows().len(),
    ensures
        exists|p: int|
            0 <= p < e.space_rows().len() && #[trigger] e.space_rows()[p].id
                == e.pool_rows()[i].parent_id && contained(e.pool_rows()[i], e.space_rows()[p]),
        exists|p: int|
            0 <= p < e.pool_rows().len() && #[trigger] e.pool_rows()[p].id
                == e.assignment_rows()[j].parent_id && contained(
                e.assignment_rows()[j],
                e.pool_rows()[p],
            ),
{
    assert(crate::engine::parent_ok(e.pool_rows()[i], e.space_rows()));
    assert(crate::engine::parent_ok(e.assignment_rows()[j], e.pool_rows()));
}

/// In a well-formed store, the ranges of two distinct rows under the same
/// parent never overlap — at any level, at every point in time, whatever
/// sequence of creates and deletes produced the store.
pub proof fn lemma_siblings_never_overlap(e: Engine, i: int, j: int)
    requires
        e.wf(),
        i != j,
    ensures
        0 <= i < e.space_rows().len() && 0 <= j < e.space_rows().len() ==> !overlaps(
            e.space_rows()[i],
            e.space_rows()[j],
        ),
        0 <= i < e.pool_rows().len() && 0 <= j < e.pool_rows().len() && e.pool_rows()[i].parent_id
            == e.pool_rows()[j].parent_id ==> !overlaps(e.pool_rows()[i], e.pool_rows()[j]),
        0 <= i < e.assignment_rows().len() && 0 <= j < e.assignment_rows().len()
            && e.assignment_rows()[i].parent_id == e.assignment_rows()[j].parent_id ==> !overlaps(
            e.assignment_rows()[i],
            e.assignment_rows()[j],
        ),
{
}

/// Deleting a space erases it together with every descendant: afterwards
/// the deleted space's identifier, the identifier of every pool that was
/// under it, and the identifier of every assignment under such a pool all
/// answer "not found". The hypotheses are what `delete_space` ensures.
pub proof fn lemma_delete_space_cascades(pre: Engine, post: Engine, space_id: i32)
    requires
        pre.wf(),
        post.wf(),
        forall|x: Row|
            post.space_rows().contains(x) <==> (pre.space_rows().contains(x) && x.id != space_id),
        forall|x: Row|
            post.pool_rows().contains(x) <==> (pre.pool_rows().contains(x) && x.parent_id
                != space_id),
        forall|x: Row|
            post.assignment_rows().contains(x) <==> (pre.assignment_rows().contains(x)
                && !pool_under_space(pre.pool_rows(), space_id, x.parent_id)),
    ensures
        !has_id(post.space_rows(), space_id),
        forall|i: int|
            0 <= i < pre.pool_rows().len() && (#[trigger] pre.pool_rows()[i]).parent_id == space_id
                ==> !has_id(post.pool_rows(), pre.pool_rows()[i].id),
        forall|i: int, j: int|
            0 <= i < pre.pool_rows().len() && (#[trigger] pre.pool_rows()[i]).parent_id == space_id
                && 0 <= j < pre.assignment_rows().len()
                && (#[trigger] pre.assignment_rows()[j]).parent_id == pre.pool_rows()[i].id
                ==> !has_id(post.assignment_rows(), pre.assignment_rows()[j].id),
{
    if has_id(post.space_rows(), space_id) {
        let q = choose|q: int|
            0 <= q < post.space_rows().len() && post.space_rows()[q].id == space_id;
        assert(post.space_rows().contains(post.space_rows()[q]));
    }
    assert forall|i: int|
        0 <= i < pre.pool_rows().len() && (#[trigger] pre.pool_rows()[i]).parent_id
            == space_id implies !has_id(post.pool_rows(), pre.pool_rows()[i].id) by {
        if has_id(post.pool_rows(), pre.pool_rows()[i].id) {
            let q = choose|q: int|
                0 <= q < post.pool_rows().len() && post.pool_rows()[q].id == pre.pool_rows()[i].id;
            assert(post.pool_rows().contains(post.pool_rows()[q]));
            let oq = choose|oq: int|
                0 <= oq < pre.pool_rows().len() && pre.pool_rows()[oq] == post.pool_rows()[q];
            assert(pre.pool_rows()[oq].id == pre.pool_rows()[i].id);
            assert(oq == i);
        }
    };
    assert forall|i: int, j: int|
        0 <= i < pre.pool_rows().len() && (#[trigger] pre.pool_rows()[i]).parent_id == space_id && 0
            <= j < pre.assignment_rows().len() && (#[trigger] pre.assignment_rows()[j]).parent_id
            == pre.pool_rows()[i].id implies !has_id(
        post.assignment_rows(),
        pre.assignment_rows()[j].id,
    ) by {
        if has_id(post.assignment_rows(), pre.assignment_rows()[j].id) {
            let q = choose|q: int|
                0 <= q < post.assignment_rows().len() && post.assignment_rows()[q].id
                    == pre.assignment_rows()[j].id;
            assert(post.assignment_rows().contains(post.assignment_rows()[q]));
            let oq = choose|oq: int|
                0 <= oq < pre.assignment_rows().len() && pre.assignment_rows()[oq]
                    == post.assignment_rows()[q];
            assert(oq == j);
            assert(pool_under_space(
                pre.pool_rows(),
                space_id,
                pre.assignment_rows()[j].parent_id,
            ));
        }
    };
}

/// Round trip, ASN space: what a successful create stores, a get reads
/// back equal in every field but the identifier. The first hypothesis
/// block is what `create_space` ensures of the stored row; the second is
/// what `get_space` ensures of its result.
pub proof fn lemma_round_trip_asn_space(sp: AssignmentSpaceAsn, row: Row, out: AssignmentSpaceAsn)
    requires
        row.name == sp.name,
        row.description == sp.description,
        row.visibility == sp.space_visibility,
        row.lo == sp.asn_from as u128,
        row.hi == sp.asn_to as u128,
        asn_space_matches(out, row),
    ensures
        out.name == sp.name,
        out.description == sp.description,
        out.space_visibility == sp.space_visibility,
        out.asn_from == sp.asn_from,
        out.asn_to == sp.asn_to,
{
}

/// Round trip, ASN pool.
pub proof fn lemma_round_trip_asn_pool(p: AssignmentPoolAsn, row: Row, out: AssignmentPoolAsn)
    requires
        row.parent_id == p.assignment_space_id,
        row.name == p.name,
        row.description == p.description,
        row.visibility == p.pool_visibility,
        row.lo == p.asn_from as u128,
        row.hi == p.asn_to as u128,
        asn_pool_matches(out, row),
    ensures
        out.assignment_space_id == p.assignment_space_id,
        out.name == p.name,
        out.description == p.description,
        out.pool_visibility == p.pool_visibility,
        out.asn_from == p.asn_from,
        out.asn_to == p.asn_to,
{
}

/// Round trip, ASN assignment.
pub proof fn lemma_round_trip_asn_assignment(a: AssignmentAsn, row: Row, out: AssignmentAsn)
    requires
        row.parent_id == a.assignment_pool_id,
        row.name == a.name,
        row.description == a.description,
        row.visibility == a.assignment_visibility,
        row.lo == a.asn as u128,
        row.hi == a.asn as u128,
        asn_assignment_matches(out, row),
    ensures
        out.assignment_pool_id == a.assignment_pool_id,
        out.name == a.name,
        out.description == a.description,
        out.assignment_visibility == a.assignment_visibility,
        out.asn == a.asn,
{
}

/// Round trip, IPv4 space; pools and assignments carry the same fields
/// and follow in the same way.
pub proof fn lemma_round_trip_ipv4_space(
    sp: AssignmentSpaceIpv4,
    row: Row,
    out: AssignmentSpaceIpv4,
)
    requires
        row.name == sp.name,
        row.description == sp.description,
        row.visibility == sp.space_visibility,
        row.addr@.subrange(0, 4) == sp.ipv4_prefix@,
        row.len == sp.ipv4_prefix_len,
        ipv4_space_matches(out, row),
    ensures
        out.name == sp.name,
        out.description == sp.description,
        out.space_visibility == sp.space_visibility,
        out.ipv4_prefix@ == sp.ipv4_prefix@,
        out.ipv4_prefix_len == sp.ipv4_prefix_len,
{
}

/// Round trip, IPv6 space; pools and assignments carry the same fields
/// and follow in the same way.
pub proof fn lemma_round_trip_ipv6_space(
    sp: AssignmentSpaceIpv6,
    row: Row,
    out: AssignmentSpaceIpv6,
)
    requires
        row.name == sp.name,
        row.description == sp.description,
        row.visibility == sp.space_visibility,
        row.addr@ == sp.ipv6_prefix@,
        row.len == sp.ipv6_prefix_len,
        ipv6_space_matches(out, row),
    ensures
        out.name == sp.name,
        out.description == sp.description,
        out.space_visibility == sp.space_visibility,
        out.ipv6_prefix@ == sp.ipv6_prefix@,
        out.ipv6_prefix_len == sp.ipv6_prefix_len,
{
}

/// Reads are functions of the store state alone: two stores with equal
/// tables answer every lookup identically, so repeated gets and lists
/// without an intervening mutation return identical results.
pub proof fn lemma_reads_idempotent(a: Engine, b: Engine, id: i32)
    requires
        a.space_rows() == b.space_rows(),
        a.pool_rows() == b.pool_rows(),
        a.assignment_rows() == b.assignment_rows(),
    ensures
        has_id(a.space_rows(), id) == has_id(b.space_rows(), id),
        has_id(a.pool_rows(), id) == has_id(b.pool_rows(), id),
        has_id(a.assignment_rows(), id) == has_id(b.assignment_rows(), id),
        row_at_id(a.space_rows(), id) == row_at_id(b.space_rows(), id),
        row_at_id(a.pool_rows(), id) == row_at_id(b.pool_rows(), id),
        row_at_id(a.assignment_rows(), id) == row_at_id(b.assignment_rows(), id),
{
}


/// In the IPv4 reading, two distinct pools of the same space hold
/// prefixes whose blocks are disjoint: neither block contains the other.
/// The same holds of spaces among themselves and of assignments under one
/// pool, whose rows satisfy the same invariants.
pub proof fn lemma_ipv4_sibling_blocks_disjoint(s: Ipv4AssignmentStore, i: int, j: int)
    requires
        s.wf(),
        0 <= i < s.pools().len(),
        0 <= j < s.pools().len(),
        i != j,
        s.pools()[i].parent_id == s.pools()[j].parent_id,
    ensures
        !overlaps(s.pools()[i], s.pools()[j]),
        !prefix_block_contains(
            s.pools()[i].addr@.subrange(0, 4),
            s.pools()[i].len as int,
            s.pools()[j].addr@.subrange(0, 4),
            s.pools()[j].len as int,
        ),
        !prefix_block_contains(
            s.pools()[j].addr@.subrange(0, 4),
            s.pools()[j].len as int,
            s.pools()[i].addr@.subrange(0, 4),
            s.pools()[i].len as int,
        ),
{
    let pi = s.pools()[i];
    let pj = s.pools()[j];
    let ai = pi.addr@.subrange(0, 4);
    let aj = pj.addr@.subrange(0, 4);
    let li = pi.len as int;
    let lj = pj.len as int;
    assert(!overlaps(pi, pj));
    assert(crate::ipv4::valid_prefix4(ai, li) && pi.lo == crate::key::be_value(ai) && pi.hi
        == crate::ipv4::bcast_val4(ai, li));
    assert(crate::ipv4::valid_prefix4(aj, lj) && pj.lo == crate::key::be_value(aj) && pj.hi
        == crate::ipv4::bcast_val4(aj, lj));
    if prefix_block_contains(ai, li, aj, lj) {
        assert(crate::key::network_bytes(aj, li) =~= ai) by {
            assert(crate::key::network_bytes(ai, li) =~= ai);
        };
        crate::key::lemma_aligned_overlap(ai, li, aj, lj);
        assert(overlaps(pi, pj));
    }
    if prefix_block_contains(aj, lj, ai, li) {
        assert(crate::key::network_bytes(ai, lj) =~= aj) by {
            assert(crate::key::network_bytes(aj, lj) =~= aj);
        };
        crate::key::lemma_aligned_overlap(aj, lj, ai, li);
        assert(overlaps(pj, pi));
    }
}

/// In the IPv6 reading, two distinct pools of the same space hold
/// prefixes whose blocks are disjoint: neither block contains the other.
pub proof fn lemma_ipv6_sibling_blocks_disjoint(s: Ipv6AssignmentStore, i: int, j: int)
    requires
        s.wf(),
        0 <= i < s.pools().len(),
        0 <= j < s.pools().len(),
        i != j,
        s.pools()[i].parent_id == s.pools()[j].parent_id,
    ensures
        !overlaps(s.pools()[i], s.pools()[j]),
        !prefix_block_contains(
            s.pools()[i].addr@,
            s.pools()[i].len as int,
            s.pools()[j].addr@,
            s.pools()[j].len as int,
        ),
        !prefix_block_contains(
            s.pools()[j].addr@,
            s.pools()[j].len as int,
            s.pools()[i].addr@,
            s.pools()[i].len as int,
        ),
{
    let pi = s.pools()[i];
    let pj = s.pools()[j];
    let ai = pi.addr@;
    let aj = pj.addr@;
    let li = pi.len as int;
    let lj = pj.len as int;
    assert(!overlaps(pi, pj));
    assert(crate::ipv6::valid_prefix6(ai, li) && pi.lo == crate::key::be_value(ai) && pi.hi
        == crate::ipv6::bcast_val6(ai, li));
    assert(crate::ipv6::valid_prefix6(aj, lj) && pj.lo == crate::key::be_value(aj) && pj.hi
        == crate::ipv6::bcast_val6(aj, lj));
    if prefix_block_contains(ai, li, aj, lj) {
        assert(crate::key::network_bytes(aj, li) =~= ai) by {
            assert(crate::key::network_bytes(ai, li) =~= ai);
        };
        crate::key::lemma_aligned_overlap(ai, li, aj, lj);
        assert(overlaps(pi, pj));
    }
    if prefix_block_contains(aj, lj, ai, li) {
        assert(crate::key::network_bytes(ai, lj) =~= aj) by {
            assert(crate::key::network_bytes(aj, lj) =~= aj);
        };
        crate::key::lemma_aligned_overlap(aj, lj, ai, li);
        assert(overlaps(pj, pi));
    }
}

} // verus!
