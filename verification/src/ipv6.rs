//! The IPv6 domain: prefix arithmetic on 16-byte big-endian addresses, and
//! the IPv6 entity types of the three hierarchy levels.

use vstd::prelude::*;

use crate::engine::exists_overlap;
use crate::engine::has_id;
use crate::engine::row_at_id;
use crate::engine::CreateFailure;
use crate::engine::Engine;
use crate::engine::Row;
use crate::key::be_bytes_to_u128;
use crate::key::be_value;
use crate::key::broadcast_bytes;
use crate::key::lemma_net_bcast_bracket;
use crate::key::mask_byte;
use crate::key::mask_bytes;
use crate::key::network_bytes;
use crate::key::normalized;
use crate::key::wild_byte;
use crate::key::wild_bytes;
use crate::types::Error;
use crate::types::ErrorKind;
use crate::types::ObjectVisibility;

verus! {

/// An IPv6 address in big-endian bit and byte order.
pub type RawIpv6Addr = [u8; 16];

/// The subnet mask of the prefix length: leading one bits.
pub fn ipv6_subnet_mask(prefix_len: u8) -> (r: RawIpv6Addr)
    ensures
        r@ =~= mask_bytes(16, prefix_len as int),
{
    let mut mask: RawIpv6Addr = [0u8; 16];
    let mut i: usize = 0;
    while i < 16
        invariant
            i <= 16,
            forall|k: int| 0 <= k < i ==> mask@[k] == mask_bytes(16, prefix_len as int)[k],
        decreases 16 - i,
    {
        mask[i] = mask_byte(prefix_len, i);
        i = i + 1;
    }
    mask
}

/// The wildcard mask of the prefix length: complement of the subnet mask.
pub fn ipv6_wildcard_mask(prefix_len: u8) -> (r: RawIpv6Addr)
    ensures
        r@ =~= wild_bytes(16, prefix_len as int),
{
    let mut mask: RawIpv6Addr = [0u8; 16];
    let mut i: usize = 0;
    while i < 16
        invariant
            i <= 16,
            forall|k: int| 0 <= k < i ==> mask@[k] == wild_bytes(16, prefix_len as int)[k],
        decreases 16 - i,
    {
        mask[i] = wild_byte(prefix_len, i);
        i = i + 1;
    }
    mask
}

/// First address in the network
pub fn ipv6_network_address(ip: RawIpv6Addr, prefix_len: u8) -> (r: RawIpv6Addr)
    ensures
        r@ =~= network_bytes(ip@, prefix_len as int),
{
    let mask: RawIpv6Addr = ipv6_subnet_mask(prefix_len);
    let mut addr: RawIpv6Addr = [0u8; 16];
    let mut i: usize = 0;
    while i < 16
        invariant
            i <= 16,
            mask@ =~= mask_bytes(16, prefix_len as int),
            forall|k: int| 0 <= k < i ==> addr@[k] == network_bytes(ip@, prefix_len as int)[k],
        decreases 16 - i,
    {
        addr[i] = ip[i] & mask[i];
        i = i + 1;
    }
    addr
}

/// Last address in the network
pub fn ipv6_broadcast_address(ip: RawIpv6Addr, prefix_len: u8) -> (r: RawIpv6Addr)
    ensures
        r@ =~= broadcast_bytes(ip@, prefix_len as int),
{
    let wildcard: RawIpv6Addr = ipv6_wildcard_mask(prefix_len);
    let mut addr: RawIpv6Addr = [0u8; 16];
    let mut i: usize = 0;
    while i < 16
        invariant
            i <= 16,
            wildcard@ =~= wild_bytes(16, prefix_len as int),
            forall|k: int| 0 <= k < i ==> addr@[k] == broadcast_bytes(ip@, prefix_len as int)[k],
        decreases 16 - i,
    {
        addr[i] = ip[i] | wildcard[i];
        i = i + 1;
    }
    addr
}

/// The numeric value of the lowest address of the block.
pub open spec fn net_val6(ip: Seq<u8>, len: int) -> int {
    be_value(network_bytes(ip, len))
}

/// The numeric value of the highest address of the block.
pub open spec fn bcast_val6(ip: Seq<u8>, len: int) -> int {
    be_value(broadcast_bytes(ip, len))
}

/// IPv6 assignment space. Can contain multiple pools.
#[derive(Debug, Clone, PartialEq)]
pub struct AssignmentSpaceIpv6 {
    pub id: i32,
    /// Assignment Space name
    pub name: String,
    /// Document actual usage ratio, purpose, etc.
    pub description: String,
    /// Visibility of the assignment space
    pub space_visibility: ObjectVisibility,
    /// IPv6 prefix of the assignment space, in big-endian bit and byte order
    pub ipv6_prefix: [u8; 16],
    /// Length of the IPv6 prefix
    pub ipv6_prefix_len: i32,
}

/// IPv6 assignment pool. Can contain multiple assignments.
#[derive(Debug, Clone, PartialEq)]
pub struct AssignmentPoolIpv6 {
    pub id: i32,
    /// Parent assignment space ID
    pub assignment_space_id: i32,
    /// Assignment pool name
    pub name: String,
    /// Document actual usage ratio, purpose, etc.
    pub description: String,
    /// Visibility of the assignment pool
    pub pool_visibility: ObjectVisibility,
    /// IPv6 prefix of the assignment pool, in big-endian bit and byte order
    pub ipv6_prefix: [u8; 16],
    /// Length of the IPv6 prefix
    pub ipv6_prefix_len: i32,
}

/// IPv6 assignment to a specific entity.
#[derive(Debug, Clone, PartialEq)]
pub struct AssignmentIpv6 {
    pub id: i32,
    /// Parent assignment pool ID
    pub assignment_pool_id: i32,
    /// Assignment name
    pub name: String,
    /// Document actual usage ratio, purpose, etc.
    pub description: String,
    /// Assignment visibility
    pub assignment_visibility: ObjectVisibility,
    /// IPv6 prefix of the assignment, in big-endian bit and byte order
    pub ipv6_prefix: [u8; 16],
    /// Length of the IPv6 prefix
    pub ipv6_prefix_len: i32,
}

/// A legal IPv6 prefix: the length is within the domain bound and the
/// address is its own network address at that length.
pub open spec fn valid_prefix6(ip: Seq<u8>, len: int) -> bool {
    0 <= len <= 128 && normalized(ip, len)
}

/// Check a prefix for validity: length within bounds, address normalized.
pub fn ipv6_prefix_valid(prefix: RawIpv6Addr, prefix_len: i32) -> (r: bool)
    ensures
        r == valid_prefix6(prefix@, prefix_len as int),
{
    if prefix_len < 0 || prefix_len > 128 {
        return false;
    }
    let net: RawIpv6Addr = ipv6_network_address(prefix, prefix_len as u8);
    let mut i: usize = 0;
    while i < 16
        invariant
            i <= 16,
            net@ =~= network_bytes(prefix@, prefix_len as int),
            forall|k: int| 0 <= k < i ==> net@[k] == prefix@[k],
        decreases 16 - i,
    {
        if net[i] != prefix[i] {
            proof {
                if normalized(prefix@, prefix_len as int) {
                    assert(network_bytes(prefix@, prefix_len as int) =~= prefix@);
                }
            }
            return false;
        }
        i = i + 1;
    }
    proof {
        assert(net@ =~= prefix@);
    }
    true
}

/// The entity is the reading of the stored row.
pub open spec fn ipv6_space_matches(sp: AssignmentSpaceIpv6, row: Row) -> bool {
    &&& sp.id == row.id
    &&& sp.name == row.name
    &&& sp.description == row.description
    &&& sp.space_visibility == row.visibility
    &&& sp.ipv6_prefix@ == row.addr@
    &&& sp.ipv6_prefix_len == row.len
}

/// The entity is the reading of the stored row.
pub open spec fn ipv6_pool_matches(p: AssignmentPoolIpv6, row: Row) -> bool {
    &&& p.id == row.id
    &&& p.assignment_space_id == row.parent_id
    &&& p.name == row.name
    &&& p.description == row.description
    &&& p.pool_visibility == row.visibility
    &&& p.ipv6_prefix@ == row.addr@
    &&& p.ipv6_prefix_len == row.len
}

/// The entity is the reading of the stored row.
pub open spec fn ipv6_assignment_matches(a: AssignmentIpv6, row: Row) -> bool {
    &&& a.id == row.id
    &&& a.assignment_pool_id == row.parent_id
    &&& a.name == row.name
    &&& a.description == row.description
    &&& a.assignment_visibility == row.visibility
    &&& a.ipv6_prefix@ == row.addr@
    &&& a.ipv6_prefix_len == row.len
}

/// Every row of the table is a legal IPv6 prefix whose interval is the
/// one its network and broadcast addresses span.
pub open spec fn rows_prefix6(s: Seq<Row>) -> bool {
    forall|i: int|
        0 <= i < s.len() ==> {
            let r = #[trigger] s[i];
            &&& valid_prefix6(r.addr@, r.len as int)
            &&& r.lo == be_value(r.addr@)
            &&& r.hi == bcast_val6(r.addr@, r.len as int)
        }
}

/// The numeric interval of a valid prefix, for the engine.
fn key6(prefix: RawIpv6Addr, prefix_len: i32) -> (r: (u128, u128))
    requires
        valid_prefix6(prefix@, prefix_len as int),
    ensures
        r.0 == be_value(prefix@),
        r.0 == net_val6(prefix@, prefix_len as int),
        r.1 == bcast_val6(prefix@, prefix_len as int),
        r.0 <= r.1,
{
    let bc: RawIpv6Addr = ipv6_broadcast_address(prefix, prefix_len as u8);
    let lo: u128 = be_bytes_to_u128(prefix.as_slice());
    let hi: u128 = be_bytes_to_u128(bc.as_slice());
    proof {
        assert(network_bytes(prefix@, prefix_len as int) =~= prefix@);
        lemma_net_bcast_bracket(prefix@, prefix_len as int);
    }
    (lo, hi)
}

/// The address bytes a row stores.
fn addr6_of(row: &Row) -> (r: RawIpv6Addr)
    ensures
        r@ == row.addr@,
{
    row.addr
}

/// The store of IPv6 spaces, pools and assignments.
pub struct Ipv6AssignmentStore {
    eng: Engine,
}

impl Ipv6AssignmentStore {
    /// The underlying engine state, for specifications.
    pub closed spec fn engine(self) -> Engine {
        self.eng
    }

    /// The space table.
    pub open spec fn spaces(self) -> Seq<Row> {
        self.engine().space_rows()
    }

    /// The pool table.
    pub open spec fn pools(self) -> Seq<Row> {
        self.engine().pool_rows()
    }

    /// The assignment table.
    pub open spec fn assignments(self) -> Seq<Row> {
        self.engine().assignment_rows()
    }

    /// The engine invariants, plus: every row is a legal IPv6 prefix with
    /// its own network-to-broadcast interval.
    pub open spec fn wf(self) -> bool {
        &&& self.engine().wf()
        &&& rows_prefix6(self.spaces())
        &&& rows_prefix6(self.pools())
        &&& rows_prefix6(self.assignments())
    }

    /// An empty store.
    pub fn new() -> (r: Ipv6AssignmentStore)
        ensures
            r.wf(),
            r.spaces() =~= Seq::<Row>::empty(),
            r.pools() =~= Seq::<Row>::empty(),
            r.assignments() =~= Seq::<Row>::empty(),
            r.engine().next_space() == 1,
            r.engine().next_pool() == 1,
            r.engine().next_assignment() == 1,
    {
        Ipv6AssignmentStore { eng: Engine::new() }
    }

    /// Get an assignment space by ID
    pub fn get_space(&self, space_id: i32) -> (r: Result<AssignmentSpaceIpv6, Error>)
        requires
            self.wf(),
        ensures
            match r {
                Ok(sp) => has_id(self.spaces(), space_id) && ipv6_space_matches(
                    sp,
                    row_at_id(self.spaces(), space_id),
                ),
                Err(e) => !has_id(self.spaces(), space_id) && e.spec_kind() == ErrorKind::NotFound,
            },
    {
        match self.eng.get_space(space_id) {
            Some(row) => Ok(
                AssignmentSpaceIpv6 {
                    id: row.id,
                    name: row.name.clone(),
                    description: row.description.clone(),
                    space_visibility: row.visibility,
                    ipv6_prefix: addr6_of(row),
                    ipv6_prefix_len: row.len,
                },
            ),
            None => Err(Error::new(ErrorKind::NotFound, "Space not found")),
        }
    }

    /// Get all assignment spaces, in ascending range order
    pub fn get_spaces(&self) -> (r: Result<Vec<AssignmentSpaceIpv6>, Error>)
        requires
            self.wf(),
        ensures
            match r {
                Ok(v) => v@.len() == self.spaces().len() && forall|i: int|
                    0 <= i < v@.len() ==> ipv6_space_matches(#[trigger] v@[i], self.spaces()[i]),
                Err(_) => false,
            },
    {
        let n: usize = self.eng.space_count();
        let mut out: Vec<AssignmentSpaceIpv6> = Vec::new();
        let mut i: usize = 0;
        while i < n
            invariant
                i <= n,
                n == self.spaces().len(),
                self.wf(),
                out@.len() == i,
                forall|j: int|
                    0 <= j < i ==> ipv6_space_matches(#[trigger] out@[j], self.spaces()[j]),
            decreases n - i,
        {
            let row = self.eng.space_at(i);
            out.push(
                AssignmentSpaceIpv6 {
                    id: row.id,
                    name: row.name.clone(),
                    description: row.description.clone(),
                    space_visibility: row.visibility,
                    ipv6_prefix: addr6_of(row),
                    ipv6_prefix_len: row.len,
                },
            );
            i = i + 1;
        }
        Ok(out)
    }

    /// Create a new assignment space.
    /// Returns the ID of the new assignment space; the ID in the input is
    /// ignored. Fails with `InvalidInput` when the prefix is malformed
    /// (length out of bounds, or address not its own network address) or
    /// when its block overlaps an existing space's block.
    pub fn create_space(&mut self, space: &AssignmentSpaceIpv6) -> (r: Result<i32, Error>)
        requires
            old(self).wf(),
        ensures
            final(self).wf(),
            final(self).pools() == old(self).pools(),
            final(self).assignments() == old(self).assignments(),
            ({
                let valid = valid_prefix6(space.ipv6_prefix@, space.ipv6_prefix_len as int);
                let lo = net_val6(space.ipv6_prefix@, space.ipv6_prefix_len as int);
                let hi = bcast_val6(space.ipv6_prefix@, space.ipv6_prefix_len as int);
                let clash = exists_overlap(old(self).spaces(), 0, lo as u128, hi as u128);
                let room = old(self).engine().next_space() < i32::MAX;
                &&& (r is Ok <==> valid && !clash && room)
                &&& match r {
                    Ok(id) => {
                        &&& id == old(self).engine().next_space()
                        &&& final(self).engine().next_space() == old(self).engine().next_space()
                            + 1
                        &&& final(self).engine().next_pool() == old(self).engine().next_pool()
                        &&& final(self).engine().next_assignment() == old(
                            self).engine().next_assignment()
                        &&& !has_id(old(self).spaces(), id)
                        &&& has_id(final(self).spaces(), id)
                        &&& final(self).spaces().len() == old(self).spaces().len() + 1
                        &&& ({
                            let row = row_at_id(final(self).spaces(), id);
                            row.id == id && row.parent_id == 0 && row.name == space.name
                                && row.description == space.description && row.visibility
                                == space.space_visibility && row.addr@
                                == space.ipv6_prefix@ && row.len == space.ipv6_prefix_len && row.lo
                                == lo && row.hi == hi
                        })
                        &&& forall|x: Row|
                            old(self).spaces().contains(x) ==> final(self).spaces().contains(x)
                        &&& forall|x: Row|
                            final(self).spaces().contains(x) ==> old(self).spaces().contains(x)
                                || x == row_at_id(final(self).spaces(), id)
                    },
                    Err(e) => {
                        &&& *final(self) == *old(self)
                        &&& (e.spec_kind() == ErrorKind::InvalidInput <==> !valid || clash)
                        &&& (e.spec_kind() == ErrorKind::InternalError <==> valid && !clash
                            && !room)
                        &&& (e.spec_kind() == ErrorKind::InvalidInput || e.spec_kind()
                            == ErrorKind::InternalError)
                    },
                }
            }),
    {
        if !ipv6_prefix_valid(space.ipv6_prefix, space.ipv6_prefix_len) {
            return Err(Error::new(ErrorKind::InvalidInput, "Invalid IPv6 prefix"));
        }
        let (lo, hi) = key6(space.ipv6_prefix, space.ipv6_prefix_len);
        let ghost s = self.spaces();
        let res = self.eng.create_space(
            space.name.clone(),
            space.description.clone(),
            space.space_visibility,
            lo,
            hi,
            space.ipv6_prefix,
            space.ipv6_prefix_len,
        );
        match res {
            Ok(id) => {
                proof {
                    let mrow = row_at_id(self.spaces(), id);
                    let k = choose|k: int|
                        0 <= k <= s.len() && self.spaces() =~= s.insert(k, mrow);
                    crate::engine::lemma_insert_contains(s, k, mrow);
                    assert forall|i: int| 0 <= i < self.spaces().len() implies {
                        let r = #[trigger] self.spaces()[i];
                        &&& valid_prefix6(r.addr@, r.len as int)
                        &&& r.lo == be_value(r.addr@)
                        &&& r.hi == bcast_val6(r.addr@, r.len as int)
                    } by {
                        assert(self.spaces().contains(self.spaces()[i]));
                        if self.spaces()[i] != mrow {
                            let oi = choose|oi: int| 0 <= oi < s.len() && s[oi] == self.spaces()[i];
                        }
                    };
                }
                Ok(id)
            },
            Err(f) => {
                if f == CreateFailure::Overlap {
                    Err(Error::new(ErrorKind::InvalidInput, "Overlapping space exists"))
                } else {
                    Err(Error::new(ErrorKind::InternalError, "No identifiers left to assign"))
                }
            },
        }
    }

    /// Update metadata for an assignment space; the prefix is immutable.
    pub fn update_space(&mut self, id: i32, name: &str, description: &str) -> (r: Result<
        (),
        Error,
    >)
        requires
            old(self).wf(),
        ensures
            final(self).wf(),
            r is Ok,
            final(self).engine().next_space() == old(self).engine().next_space(),
            final(self).engine().next_pool() == old(self).engine().next_pool(),
            final(self).engine().next_assignment() == old(self).engine().next_assignment(),
            final(self).pools() == old(self).pools(),
            final(self).assignments() == old(self).assignments(),
            final(self).spaces().len() == old(self).spaces().len(),
            forall|j: int|
                0 <= j < old(self).spaces().len() && old(self).spaces()[j].id != id ==> final(
                    self).spaces()[j] == old(self).spaces()[j],
            forall|j: int|
                0 <= j < old(self).spaces().len() && old(self).spaces()[j].id == id
                    ==> crate::engine::meta_updated(
                    final(self).spaces()[j],
                    old(self).spaces()[j],
                    name@,
                    description@,
                ),
    {
        self.eng.update_space_meta(id, name, description);
        proof {
            assert forall|i: int| 0 <= i < self.spaces().len() implies {
                let r = #[trigger] self.spaces()[i];
                &&& valid_prefix6(r.addr@, r.len as int)
                &&& r.lo == be_value(r.addr@)
                &&& r.hi == bcast_val6(r.addr@, r.len as int)
            } by {
                let o = old(self).spaces()[i];
                assert(valid_prefix6(o.addr@, o.len as int));
            };
        }
        Ok(())
    }

    /// Delete an assignment space.
    /// Also deletes all pools and assignments in the space.
    pub fn delete_space(&mut self, space_id: i32) -> (r: Result<(), Error>)
        requires
            old(self).wf(),
        ensures
            final(self).wf(),
            r is Ok,
            final(self).engine().next_space() == old(self).engine().next_space(),
            final(self).engine().next_pool() == old(self).engine().next_pool(),
            final(self).engine().next_assignment() == old(self).engine().next_assignment(),
            !has_id(final(self).spaces(), space_id),
            forall|x: Row|
                final(self).spaces().contains(x) <==> (old(self).spaces().contains(x) && x.id
                    != space_id),
            forall|x: Row|
                final(self).pools().contains(x) <==> (old(self).pools().contains(x) && x.parent_id
                    != space_id),
            forall|x: Row|
                final(self).assignments().contains(x) <==> (old(self).assignments().contains(x)
                    && !crate::engine::pool_under_space(old(self).pools(), space_id, x.parent_id)),
    {
        self.eng.delete_space(space_id);
        proof {
            self.lemma_tables_keep_prefix6(*old(self));
        }
        Ok(())
    }

    /// Get an assignment pool by ID
    pub fn get_pool(&self, pool_id: i32) -> (r: Result<AssignmentPoolIpv6, Error>)
        requires
            self.wf(),
        ensures
            match r {
                Ok(p) => has_id(self.pools(), pool_id) && ipv6_pool_matches(
                    p,
                    row_at_id(self.pools(), pool_id),
                ),
                Err(e) => !has_id(self.pools(), pool_id) && e.spec_kind() == ErrorKind::NotFound,
            },
    {
        match self.eng.get_pool(pool_id) {
            Some(row) => Ok(
                AssignmentPoolIpv6 {
                    id: row.id,
                    assignment_space_id: row.parent_id,
                    name: row.name.clone(),
                    description: row.description.clone(),
                    pool_visibility: row.visibility,
                    ipv6_prefix: addr6_of(row),
                    ipv6_prefix_len: row.len,
                },
            ),
            None => Err(Error::new(ErrorKind::NotFound, "Pool not found")),
        }
    }

    /// Get all assignment pools in a space, in ascending range order
    pub fn get_pools(&self, space_id: i32) -> (r: Result<Vec<AssignmentPoolIpv6>, Error>)
        requires
            self.wf(),
        ensures
            match r {
                Ok(v) => {
                    let f = self.pools().filter(|x: Row| x.parent_id == space_id);
                    v@.len() == f.len() && forall|i: int|
                        0 <= i < v@.len() ==> ipv6_pool_matches(#[trigger] v@[i], f[i])
                },
                Err(_) => false,
            },
    {
        let rows = self.eng.pools_of(space_id);
        let n: usize = rows.len();
        let mut out: Vec<AssignmentPoolIpv6> = Vec::new();
        let mut i: usize = 0;
        while i < n
            invariant
                i <= n,
                n == rows@.len(),
                rows@ =~= self.pools().filter(|x: Row| x.parent_id == space_id),
                out@.len() == i,
                forall|j: int| 0 <= j < i ==> ipv6_pool_matches(#[trigger] out@[j], rows@[j]),
            decreases n - i,
        {
            let row = &rows[i];
            out.push(
                AssignmentPoolIpv6 {
                    id: row.id,
                    assignment_space_id: row.parent_id,
                    name: row.name.clone(),
                    description: row.description.clone(),
                    pool_visibility: row.visibility,
                    ipv6_prefix: addr6_of(row),
                    ipv6_prefix_len: row.len,
                },
            );
            i = i + 1;
        }
        Ok(out)
    }

    /// Create a new assignment pool.
    /// Returns the ID of the new assignment pool; the ID in the input is
    /// ignored. The parent space must exist, the pool's block must lie
    /// inside the space's block, and it must not overlap a pool of the
    /// same space.
    pub fn create_pool(&mut self, pool: &AssignmentPoolIpv6) -> (r: Result<i32, Error>)
        requires
            old(self).wf(),
        ensures
            final(self).wf(),
            final(self).spaces() == old(self).spaces(),
            final(self).assignments() == old(self).assignments(),
            ({
                let valid = valid_prefix6(pool.ipv6_prefix@, pool.ipv6_prefix_len as int);
                let lo = net_val6(pool.ipv6_prefix@, pool.ipv6_prefix_len as int);
                let hi = bcast_val6(pool.ipv6_prefix@, pool.ipv6_prefix_len as int);
                let pok = has_id(old(self).spaces(), pool.assignment_space_id);
                let parent = row_at_id(old(self).spaces(), pool.assignment_space_id);
                let inside = parent.lo <= lo && hi <= parent.hi;
                let clash = exists_overlap(
                    old(self).pools(),
                    pool.assignment_space_id,
                    lo as u128,
                    hi as u128,
                );
                let room = old(self).engine().next_pool() < i32::MAX;
                &&& (r is Ok <==> valid && pok && inside && !clash && room)
                &&& match r {
                    Ok(id) => {
                        &&& id == old(self).engine().next_pool()
                        &&& final(self).engine().next_pool() == old(self).engine().next_pool() + 1
                        &&& final(self).engine().next_space() == old(self).engine().next_space()
                        &&& final(self).engine().next_assignment() == old(
                            self).engine().next_assignment()
                        &&& !has_id(old(self).pools(), id)
                        &&& has_id(final(self).pools(), id)
                        &&& final(self).pools().len() == old(self).pools().len() + 1
                        &&& ({
                            let row = row_at_id(final(self).pools(), id);
                            row.id == id && row.parent_id == pool.assignment_space_id && row.name
                                == pool.name && row.description == pool.description
                                && row.visibility == pool.pool_visibility && row.addr@ == pool.ipv6_prefix@ && row.len == pool.ipv6_prefix_len && row.lo
                                == lo && row.hi == hi
                        })
                        &&& forall|x: Row|
                            old(self).pools().contains(x) ==> final(self).pools().contains(x)
                        &&& forall|x: Row|
                            final(self).pools().contains(x) ==> old(self).pools().contains(x) || x
                                == row_at_id(final(self).pools(), id)
                    },
                    Err(e) => {
                        &&& *final(self) == *old(self)
                        &&& (e.spec_kind() == ErrorKind::NotFound <==> valid && !pok)
                        &&& (e.spec_kind() == ErrorKind::InvalidInput <==> !valid || (pok && (
                        !inside || clash)))
                        &&& (e.spec_kind() == ErrorKind::InternalError <==> valid && pok && inside
                            && !clash && !room)
                    },
                }
            }),
    {
        if !ipv6_prefix_valid(pool.ipv6_prefix, pool.ipv6_prefix_len) {
            return Err(Error::new(ErrorKind::InvalidInput, "Invalid IPv6 prefix"));
        }
        let (lo, hi) = key6(pool.ipv6_prefix, pool.ipv6_prefix_len);
        let ghost s = self.pools();
        let res = self.eng.create_pool(
            pool.assignment_space_id,
            pool.name.clone(),
            pool.description.clone(),
            pool.pool_visibility,
            lo,
            hi,
            pool.ipv6_prefix,
            pool.ipv6_prefix_len,
        );
        match res {
            Ok(id) => {
                proof {
                    let mrow = row_at_id(self.pools(), id);
                    let k = choose|k: int| 0 <= k <= s.len() && self.pools() =~= s.insert(k, mrow);
                    crate::engine::lemma_insert_contains(s, k, mrow);
                    assert forall|i: int| 0 <= i < self.pools().len() implies {
                        let r = #[trigger] self.pools()[i];
                        &&& valid_prefix6(r.addr@, r.len as int)
                        &&& r.lo == be_value(r.addr@)
                        &&& r.hi == bcast_val6(r.addr@, r.len as int)
                    } by {
                        assert(self.pools().contains(self.pools()[i]));
                        if self.pools()[i] != mrow {
                            let oi = choose|oi: int| 0 <= oi < s.len() && s[oi] == self.pools()[i];
                        }
                    };
                }
                Ok(id)
            },
            Err(f) => {
                if f == CreateFailure::ParentMissing {
                    Err(Error::new(ErrorKind::NotFound, "Parent space not found"))
                } else if f == CreateFailure::NotContained {
                    Err(
                        Error::new(
                            ErrorKind::InvalidInput,
                            "Pool is not contained within the parent space",
                        ),
                    )
                } else if f == CreateFailure::Overlap {
                    Err(Error::new(ErrorKind::InvalidInput, "Overlapping pool exists"))
                } else {
                    Err(Error::new(ErrorKind::InternalError, "No identifiers left to assign"))
                }
            },
        }
    }

    /// Update metadata for an assignment pool; the prefix is immutable.
    pub fn update_pool(&mut self, id: i32, name: &str, description: &str) -> (r: Result<(), Error>)
        requires
            old(self).wf(),
        ensures
            final(self).wf(),
            r is Ok,
            final(self).engine().next_space() == old(self).engine().next_space(),
            final(self).engine().next_pool() == old(self).engine().next_pool(),
            final(self).engine().next_assignment() == old(self).engine().next_assignment(),
            final(self).spaces() == old(self).spaces(),
            final(self).assignments() == old(self).assignments(),
            final(self).pools().len() == old(self).pools().len(),
            forall|j: int|
                0 <= j < old(self).pools().len() && old(self).pools()[j].id != id ==> final(
                    self).pools()[j] == old(self).pools()[j],
            forall|j: int|
                0 <= j < old(self).pools().len() && old(self).pools()[j].id == id
                    ==> crate::engine::meta_updated(
                    final(self).pools()[j],
                    old(self).pools()[j],
                    name@,
                    description@,
                ),
    {
        self.eng.update_pool_meta(id, name, description);
        proof {
            assert forall|i: int| 0 <= i < self.pools().len() implies {
                let r = #[trigger] self.pools()[i];
                &&& valid_prefix6(r.addr@, r.len as int)
                &&& r.lo == be_value(r.addr@)
                &&& r.hi == bcast_val6(r.addr@, r.len as int)
            } by {
                let o = old(self).pools()[i];
                assert(valid_prefix6(o.addr@, o.len as int));
            };
        }
        Ok(())
    }

    /// Delete an assignment pool.
    /// Also deletes all assignments in the pool.
    pub fn delete_pool(&mut self, pool_id: i32) -> (r: Result<(), Error>)
        requires
            old(self).wf(),
        ensures
            final(self).wf(),
            r is Ok,
            final(self).engine().next_space() == old(self).engine().next_space(),
            final(self).engine().next_pool() == old(self).engine().next_pool(),
            final(self).engine().next_assignment() == old(self).engine().next_assignment(),
            final(self).spaces() == old(self).spaces(),
            !has_id(final(self).pools(), pool_id),
            forall|x: Row|
                final(self).pools().contains(x) <==> (old(self).pools().contains(x) && x.id
                    != pool_id),
            forall|x: Row|
                final(self).assignments().contains(x) <==> (old(self).assignments().contains(x)
                    && x.parent_id != pool_id),
    {
        self.eng.delete_pool(pool_id);
        proof {
            self.lemma_tables_keep_prefix6(*old(self));
        }
        Ok(())
    }

    /// Get an assignment by ID
    pub fn get_assignment(&self, assignment_id: i32) -> (r: Result<AssignmentIpv6, Error>)
        requires
            self.wf(),
        ensures
            match r {
                Ok(a) => has_id(self.assignments(), assignment_id) && ipv6_assignment_matches(
                    a,
                    row_at_id(self.assignments(), assignment_id),
                ),
                Err(e) => !has_id(self.assignments(), assignment_id) && e.spec_kind()
                    == ErrorKind::NotFound,
            },
    {
        match self.eng.get_assignment(assignment_id) {
            Some(row) => Ok(
                AssignmentIpv6 {
                    id: row.id,
                    assignment_pool_id: row.parent_id,
                    name: row.name.clone(),
                    description: row.description.clone(),
                    assignment_visibility: row.visibility,
                    ipv6_prefix: addr6_of(row),
                    ipv6_prefix_len: row.len,
                },
            ),
            None => Err(Error::new(ErrorKind::NotFound, "Assignment not found")),
        }
    }

    /// Get all assignments in a pool, in ascending range order
    pub fn get_assignments(&self, pool_id: i32) -> (r: Result<Vec<AssignmentIpv6>, Error>)
        requires
            self.wf(),
        ensures
            match r {
                Ok(v) => {
                    let f = self.assignments().filter(|x: Row| x.parent_id == pool_id);
                    v@.len() == f.len() && forall|i: int|
                        0 <= i < v@.len() ==> ipv6_assignment_matches(#[trigger] v@[i], f[i])
                },
                Err(_) => false,
            },
    {
        let rows = self.eng.assignments_of(pool_id);
        let n: usize = rows.len();
        let mut out: Vec<AssignmentIpv6> = Vec::new();
        let mut i: usize = 0;
        while i < n
            invariant
                i <= n,
                n == rows@.len(),
                rows@ =~= self.assignments().filter(|x: Row| x.parent_id == pool_id),
                out@.len() == i,
                forall|j: int| 0 <= j < i ==> ipv6_assignment_matches(#[trigger] out@[j], rows@[j]),
            decreases n - i,
        {
            let row = &rows[i];
            out.push(
                AssignmentIpv6 {
                    id: row.id,
                    assignment_pool_id: row.parent_id,
                    name: row.name.clone(),
                    description: row.description.clone(),
                    assignment_visibility: row.visibility,
                    ipv6_prefix: addr6_of(row),
                    ipv6_prefix_len: row.len,
                },
            );
            i = i + 1;
        }
        Ok(out)
    }

    /// Create a new assignment.
    /// Returns the ID of the new assignment; the ID in the input is
    /// ignored. The parent pool must exist, the assignment's block must
    /// lie inside the pool's block, and it must not overlap an assignment
    /// of the same pool. Overlap detection is scoped to the parent pool.
    pub fn create_assignment(&mut self, assignment: &AssignmentIpv6) -> (r: Result<i32, Error>)
        requires
            old(self).wf(),
        ensures
            final(self).wf(),
            final(self).spaces() == old(self).spaces(),
            final(self).pools() == old(self).pools(),
            ({
                let valid = valid_prefix6(
                    assignment.ipv6_prefix@,
                    assignment.ipv6_prefix_len as int,
                );
                let lo = net_val6(assignment.ipv6_prefix@, assignment.ipv6_prefix_len as int);
                let hi = bcast_val6(assignment.ipv6_prefix@, assignment.ipv6_prefix_len as int);
                let pok = has_id(old(self).pools(), assignment.assignment_pool_id);
                let parent = row_at_id(old(self).pools(), assignment.assignment_pool_id);
                let inside = parent.lo <= lo && hi <= parent.hi;
                let clash = exists_overlap(
                    old(self).assignments(),
                    assignment.assignment_pool_id,
                    lo as u128,
                    hi as u128,
                );
                let room = old(self).engine().next_assignment() < i32::MAX;
                &&& (r is Ok <==> valid && pok && inside && !clash && room)
                &&& match r {
                    Ok(id) => {
                        &&& id == old(self).engine().next_assignment()
                        &&& final(self).engine().next_assignment() == old(
                            self).engine().next_assignment() + 1
                        &&& final(self).engine().next_space() == old(self).engine().next_space()
                        &&& final(self).engine().next_pool() == old(self).engine().next_pool()
                        &&& !has_id(old(self).assignments(), id)
                        &&& has_id(final(self).assignments(), id)
                        &&& final(self).assignments().len() == old(self).assignments().len() + 1
                        &&& ({
                            let row = row_at_id(final(self).assignments(), id);
                            row.id == id && row.parent_id == assignment.assignment_pool_id
                                && row.name == assignment.name && row.description
                                == assignment.description && row.visibility
                                == assignment.assignment_visibility && row.addr@
                                == assignment.ipv6_prefix@ && row.len
                                == assignment.ipv6_prefix_len && row.lo == lo && row.hi == hi
                        })
                        &&& forall|x: Row|
                            old(self).assignments().contains(x) ==> final(
                                self).assignments().contains(x)
                        &&& forall|x: Row|
                            final(self).assignments().contains(x) ==> old(
                                self).assignments().contains(x) || x == row_at_id(
                                final(self).assignments(),
                                id,
                            )
                    },
                    Err(e) => {
                        &&& *final(self) == *old(self)
                        &&& (e.spec_kind() == ErrorKind::NotFound <==> valid && !pok)
                        &&& (e.spec_kind() == ErrorKind::InvalidInput <==> !valid || (pok && (
                        !inside || clash)))
                        &&& (e.spec_kind() == ErrorKind::InternalError <==> valid && pok && inside
                            && !clash && !room)
                    },
                }
            }),
    {
        if !ipv6_prefix_valid(assignment.ipv6_prefix, assignment.ipv6_prefix_len) {
            return Err(Error::new(ErrorKind::InvalidInput, "Invalid IPv6 prefix"));
        }
        let (lo, hi) = key6(assignment.ipv6_prefix, assignment.ipv6_prefix_len);
        let ghost s = self.assignments();
        let res = self.eng.create_assignment(
            assignment.assignment_pool_id,
            assignment.name.clone(),
            assignment.description.clone(),
            assignment.assignment_visibility,
            lo,
            hi,
            assignment.ipv6_prefix,
            assignment.ipv6_prefix_len,
        );
        match res {
            Ok(id) => {
                proof {
                    let mrow = row_at_id(self.assignments(), id);
                    let k = choose|k: int|
                        0 <= k <= s.len() && self.assignments() =~= s.insert(k, mrow);
                    crate::engine::lemma_insert_contains(s, k, mrow);
                    assert forall|i: int| 0 <= i < self.assignments().len() implies {
                        let r = #[trigger] self.assignments()[i];
                        &&& valid_prefix6(r.addr@, r.len as int)
                        &&& r.lo == be_value(r.addr@)
                        &&& r.hi == bcast_val6(r.addr@, r.len as int)
                    } by {
                        assert(self.assignments().contains(self.assignments()[i]));
                        if self.assignments()[i] != mrow {
                            let oi = choose|oi: int|
                                0 <= oi < s.len() && s[oi] == self.assignments()[i];
                        }
                    };
                }
                Ok(id)
            },
            Err(f) => {
                if f == CreateFailure::ParentMissing {
                    Err(Error::new(ErrorKind::NotFound, "Parent pool not found"))
                } else if f == CreateFailure::NotContained {
                    Err(
                        Error::new(
                            ErrorKind::InvalidInput,
                            "Assignment is not contained within the parent pool",
                        ),
                    )
                } else if f == CreateFailure::Overlap {
                    Err(Error::new(ErrorKind::InvalidInput, "Overlapping assignment exists"))
                } else {
                    Err(Error::new(ErrorKind::InternalError, "No identifiers left to assign"))
                }
            },
        }
    }

    /// Update metadata for an assignment; the prefix is immutable.
    pub fn update_assignment(&mut self, id: i32, name: &str, description: &str) -> (r: Result<
        (),
        Error,
    >)
        requires
            old(self).wf(),
        ensures
            final(self).wf(),
            r is Ok,
            final(self).engine().next_space() == old(self).engine().next_space(),
            final(self).engine().next_pool() == old(self).engine().next_pool(),
            final(self).engine().next_assignment() == old(self).engine().next_assignment(),
            final(self).spaces() == old(self).spaces(),
            final(self).pools() == old(self).pools(),
            final(self).assignments().len() == old(self).assignments().len(),
            forall|j: int|
                0 <= j < old(self).assignments().len() && old(self).assignments()[j].id != id
                    ==> final(self).assignments()[j] == old(self).assignments()[j],
            forall|j: int|
                0 <= j < old(self).assignments().len() && old(self).assignments()[j].id == id
                    ==> crate::engine::meta_updated(
                    final(self).assignments()[j],
                    old(self).assignments()[j],
                    name@,
                    description@,
                ),
    {
        self.eng.update_assignment_meta(id, name, description);
        proof {
            assert forall|i: int| 0 <= i < self.assignments().len() implies {
                let r = #[trigger] self.assignments()[i];
                &&& valid_prefix6(r.addr@, r.len as int)
                &&& r.lo == be_value(r.addr@)
                &&& r.hi == bcast_val6(r.addr@, r.len as int)
            } by {
                let o = old(self).assignments()[i];
                assert(valid_prefix6(o.addr@, o.len as int));
            };
        }
        Ok(())
    }

    /// Delete an assignment.
    pub fn delete_assignment(&mut self, assignment_id: i32) -> (r: Result<(), Error>)
        requires
            old(self).wf(),
        ensures
            final(self).wf(),
            r is Ok,
            final(self).engine().next_space() == old(self).engine().next_space(),
            final(self).engine().next_pool() == old(self).engine().next_pool(),
            final(self).engine().next_assignment() == old(self).engine().next_assignment(),
            final(self).spaces() == old(self).spaces(),
            final(self).pools() == old(self).pools(),
            !has_id(final(self).assignments(), assignment_id),
            forall|x: Row|
                final(self).assignments().contains(x) <==> (old(self).assignments().contains(x)
                    && x.id != assignment_id),
    {
        self.eng.delete_assignment(assignment_id);
        proof {
            self.lemma_tables_keep_prefix6(*old(self));
        }
        Ok(())
    }

    /// Rows that were already in the old store keep the prefix reading;
    /// used after deletions, which only remove rows.
    proof fn lemma_tables_keep_prefix6(self, prev: Ipv6AssignmentStore)
        requires
            prev.wf(),
            forall|x: Row| self.spaces().contains(x) ==> prev.spaces().contains(x),
            forall|x: Row| self.pools().contains(x) ==> prev.pools().contains(x),
            forall|x: Row| self.assignments().contains(x) ==> prev.assignments().contains(x),
        ensures
            rows_prefix6(self.spaces()),
            rows_prefix6(self.pools()),
            rows_prefix6(self.assignments()),
    {
        assert forall|i: int| 0 <= i < self.spaces().len() implies {
            let r = #[trigger] self.spaces()[i];
            &&& valid_prefix6(r.addr@, r.len as int)
            &&& r.lo == be_value(r.addr@)
            &&& r.hi == bcast_val6(r.addr@, r.len as int)
        } by {
            assert(self.spaces().contains(self.spaces()[i]));
            let oi = choose|oi: int|
                0 <= oi < prev.spaces().len() && prev.spaces()[oi] == self.spaces()[i];
        };
        assert forall|i: int| 0 <= i < self.pools().len() implies {
            let r = #[trigger] self.pools()[i];
            &&& valid_prefix6(r.addr@, r.len as int)
            &&& r.lo == be_value(r.addr@)
            &&& r.hi == bcast_val6(r.addr@, r.len as int)
        } by {
            assert(self.pools().contains(self.pools()[i]));
            let oi = choose|oi: int|
                0 <= oi < prev.pools().len() && prev.pools()[oi] == self.pools()[i];
        };
        assert forall|i: int| 0 <= i < self.assignments().len() implies {
            let r = #[trigger] self.assignments()[i];
            &&& valid_prefix6(r.addr@, r.len as int)
            &&& r.lo == be_value(r.addr@)
            &&& r.hi == bcast_val6(r.addr@, r.len as int)
        } by {
            assert(self.assignments().contains(self.assignments()[i]));
            let oi = choose|oi: int|
                0 <= oi < prev.assignments().len() && prev.assignments()[oi]
                    == self.assignments()[i];
        };
    }
}

} // verus!
