//! The ASN domain: assignment of 32-bit autonomous-system numbers.
//!
//! A space and a pool hold an inclusive `[asn_from, asn_to]` range; an
//! assignment holds a single number, treated as a one-point range. All
//! checks run in the shared allocation engine.

use vstd::prelude::*;

use crate::engine::exists_overlap;
use crate::engine::has_id;
use crate::engine::row_at_id;
use crate::engine::CreateFailure;
use crate::engine::Engine;
use crate::engine::Row;
use crate::types::Error;
use crate::types::ErrorKind;
use crate::types::ObjectVisibility;

verus! {

/// ASN assignment space. Can contain multiple pools.
#[derive(Debug, Clone, PartialEq)]
pub struct AssignmentSpaceAsn {
    pub id: i32,
    /// Assignment Space name
    pub name: String,
    /// Document actual usage ratio, purpose, etc.
    pub description: String,
    /// Visibility of the assignment space
    pub space_visibility: ObjectVisibility,
    /// Start ASN of the assignment space
    pub asn_from: u32,
    /// End ASN of the assignment space
    pub asn_to: u32,
}

/// ASN assignment pool. Can contain multiple assignments.
#[derive(Debug, Clone, PartialEq)]
pub struct AssignmentPoolAsn {
    pub id: i32,
    /// Parent assignment space ID
    pub assignment_space_id: i32,
    /// Assignment pool name
    pub name: String,
    /// Document actual usage ratio, purpose, etc.
    pub description: String,
    /// Visibility of the assignment pool
    pub pool_visibility: ObjectVisibility,
    /// Start ASN of the assignment pool
    pub asn_from: u32,
    /// End ASN of the assignment pool
    pub asn_to: u32,
}

/// ASN assignment to a specific entity.
#[derive(Debug, Clone, PartialEq)]
pub struct AssignmentAsn {
    pub id: i32,
    /// Parent assignment pool ID
    pub assignment_pool_id: i32,
    /// Assignment name
    pub name: String,
    /// Document actual usage ratio, purpose, etc.
    pub description: String,
    /// Assignment visibility
    pub assignment_visibility: ObjectVisibility,
    /// Assigned ASN
    pub asn: u32,
}

/// The entity is the reading of the stored row.
pub open spec fn asn_space_matches(sp: AssignmentSpaceAsn, row: Row) -> bool {
    &&& sp.id == row.id
    &&& sp.name == row.name
    &&& sp.description == row.description
    &&& sp.space_visibility == row.visibility
    &&& sp.asn_from as u128 == row.lo
    &&& sp.asn_to as u128 == row.hi
}

/// The entity is the reading of the stored row.
pub open spec fn asn_pool_matches(p: AssignmentPoolAsn, row: Row) -> bool {
    &&& p.id == row.id
    &&& p.assignment_space_id == row.parent_id
    &&& p.name == row.name
    &&& p.description == row.description
    &&& p.pool_visibility == row.visibility
    &&& p.asn_from as u128 == row.lo
    &&& p.asn_to as u128 == row.hi
}

/// The entity is the reading of the stored row.
pub open spec fn asn_assignment_matches(a: AssignmentAsn, row: Row) -> bool {
    &&& a.id == row.id
    &&& a.assignment_pool_id == row.parent_id
    &&& a.name == row.name
    &&& a.description == row.description
    &&& a.assignment_visibility == row.visibility
    &&& a.asn as u128 == row.lo
    &&& a.asn as u128 == row.hi
}

/// Every interval of the table fits in 32 bits.
pub open spec fn rows_u32(s: Seq<Row>) -> bool {
    forall|i: int|
        0 <= i < s.len() ==> (#[trigger] s[i]).lo <= 0xffff_ffffu128 && s[i].hi <= 0xffff_ffffu128
}

/// Every interval of the table is a single point: an assignment is one
/// number.
pub open spec fn rows_points(s: Seq<Row>) -> bool {
    forall|i: int| 0 <= i < s.len() ==> (#[trigger] s[i]).lo == s[i].hi
}

/// The store of ASN spaces, pools and assignments.
pub struct AsnAssignmentStore {
    eng: Engine,
}

impl AsnAssignmentStore {
    /// The underlying engine state, for specifications.
    pub closed spec fn engine(self) -> Engine {
        self.eng
    }

    /// The space table.
    pub open spec fn spaces(self) -> Seq<Row> {
        self.engine().space_rows()
    }

    /// The pool table.
    pub open spec fn pools(self) -> Seq<Row> {
        self.engine().pool_rows()
    }

    /// The assignment table.
    pub open spec fn assignments(self) -> Seq<Row> {
        self.engine().assignment_rows()
    }

    /// The engine invariants, plus: every stored value fits in 32 bits.
    pub open spec fn wf(self) -> bool {
        &&& self.engine().wf()
        &&& rows_u32(self.spaces())
        &&& rows_u32(self.pools())
        &&& rows_u32(self.assignments())
        &&& rows_points(self.assignments())
    }

    /// An empty store.
    pub fn new() -> (r: AsnAssignmentStore)
        ensures
            r.wf(),
            r.spaces() =~= Seq::<Row>::empty(),
            r.pools() =~= Seq::<Row>::empty(),
            r.assignments() =~= Seq::<Row>::empty(),
            r.engine().next_space() == 1,
            r.engine().next_pool() == 1,
            r.engine().next_assignment() == 1,
    {
        AsnAssignmentStore { eng: Engine::new() }
    }

    /// Get an assignment space by ID
    pub fn get_space(&self, space_id: i32) -> (r: Result<AssignmentSpaceAsn, Error>)
        requires
            self.wf(),
        ensures
            match r {
                Ok(sp) => has_id(self.spaces(), space_id) && asn_space_matches(
                    sp,
                    row_at_id(self.spaces(), space_id),
                ),
                Err(e) => !has_id(self.spaces(), space_id) && e.spec_kind() == ErrorKind::NotFound,
            },
    {
        match self.eng.get_space(space_id) {
            Some(row) => {
                proof {
                    let idx = choose|i: int|
                        0 <= i < self.spaces().len() && self.spaces()[i].id == space_id;
                    assert(self.spaces()[idx].hi <= 0xffff_ffffu128);
                }
                Ok(
                    AssignmentSpaceAsn {
                        id: row.id,
                        name: row.name.clone(),
                        description: row.description.clone(),
                        space_visibility: row.visibility,
                        asn_from: row.lo as u32,
                        asn_to: row.hi as u32,
                    },
                )
            },
            None => Err(Error::new(ErrorKind::NotFound, "Assignment space not found")),
        }
    }

    /// Get all assignment spaces, in ascending range order
    pub fn get_spaces(&self) -> (r: Result<Vec<AssignmentSpaceAsn>, Error>)
        requires
            self.wf(),
        ensures
            match r {
                Ok(v) => v@.len() == self.spaces().len() && forall|i: int|
                    0 <= i < v@.len() ==> asn_space_matches(#[trigger] v@[i], self.spaces()[i]),
                Err(_) => false,
            },
    {
        let n: usize = self.eng.space_count();
        let mut out: Vec<AssignmentSpaceAsn> = Vec::new();
        let mut i: usize = 0;
        while i < n
            invariant
                i <= n,
                n == self.spaces().len(),
                self.wf(),
                out@.len() == i,
                forall|j: int|
                    0 <= j < i ==> asn_space_matches(#[trigger] out@[j], self.spaces()[j]),
            decreases n - i,
        {
            let row = self.eng.space_at(i);
            out.push(
                AssignmentSpaceAsn {
                    id: row.id,
                    name: row.name.clone(),
                    description: row.description.clone(),
                    space_visibility: row.visibility,
                    asn_from: row.lo as u32,
                    asn_to: row.hi as u32,
                },
            );
            i = i + 1;
        }
        Ok(out)
    }

    /// Create a new assignment space.
    /// Returns the ID of the new assignment space; the ID in the input is
    /// ignored. Fails with `InvalidInput` when the range is inverted or
    /// overlaps an existing space's range.
    pub fn create_space(&mut self, space: &AssignmentSpaceAsn) -> (r: Result<i32, Error>)
        requires
            old(self).wf(),
        ensures
            final(self).wf(),
            final(self).pools() == old(self).pools(),
            final(self).assignments() == old(self).assignments(),
            ({
                let valid = space.asn_from <= space.asn_to;
                let clash = exists_overlap(
                    old(self).spaces(),
                    0,
                    space.asn_from as u128,
                    space.asn_to as u128,
                );
                let room = old(self).engine().next_space() < i32::MAX;
                &&& (r is Ok <==> valid && !clash && room)
                &&& match r {
                    Ok(id) => {
                        &&& id == old(self).engine().next_space()
                        &&& final(self).engine().next_space() == old(self).engine().next_space()
                            + 1
                        &&& final(self).engine().next_pool() == old(self).engine().next_pool()
                        &&& final(self).engine().next_assignment() == old(
                            self).engine().next_assignment()
                        &&& !has_id(old(self).spaces(), id)
                        &&& has_id(final(self).spaces(), id)
                        &&& final(self).spaces().len() == old(self).spaces().len() + 1
                        &&& ({
                            let row = row_at_id(final(self).spaces(), id);
                            row.id == id && row.parent_id == 0 && row.name == space.name
                                && row.description == space.description && row.visibility
                                == space.space_visibility && row.lo == space.asn_from as u128
                                && row.hi == space.asn_to as u128
                        })
                        &&& forall|x: Row|
                            old(self).spaces().contains(x) ==> final(self).spaces().contains(x)
                        &&& forall|x: Row|
                            final(self).spaces().contains(x) ==> old(self).spaces().contains(x)
                                || x == row_at_id(final(self).spaces(), id)
                    },
                    Err(e) => {
                        &&& *final(self) == *old(self)
                        &&& (e.spec_kind() == ErrorKind::InvalidInput <==> !valid || clash)
                        &&& (e.spec_kind() == ErrorKind::InternalError <==> valid && !clash
                            && !room)
                        &&& (e.spec_kind() == ErrorKind::InvalidInput || e.spec_kind()
                            == ErrorKind::InternalError)
                    },
                }
            }),
    {
        if space.asn_from > space.asn_to {
            return Err(Error::new(ErrorKind::InvalidInput, "Invalid ASN range"));
        }
        let lo: u128 = space.asn_from as u128;
        let hi: u128 = space.asn_to as u128;
        let ghost s = self.spaces();
        let res = self.eng.create_space(
            space.name.clone(),
            space.description.clone(),
            space.space_visibility,
            lo,
            hi,
            [0u8; 16],
            0,
        );
        match res {
            Ok(id) => {
                proof {
                    let mrow = row_at_id(self.spaces(), id);
                    let k = choose|k: int|
                        0 <= k <= s.len() && self.spaces() =~= s.insert(k, mrow);
                    crate::engine::lemma_insert_contains(s, k, mrow);
                    assert forall|i: int|
                        0 <= i < self.spaces().len() implies (#[trigger] self.spaces()[i]).lo
                        <= 0xffff_ffffu128 && self.spaces()[i].hi <= 0xffff_ffffu128 by {
                        assert(self.spaces().contains(self.spaces()[i]));
                        if self.spaces()[i] != mrow {
                            let oi = choose|oi: int| 0 <= oi < s.len() && s[oi] == self.spaces()[i];
                        }
                    };
                }
                Ok(id)
            },
            Err(f) => {
                if f == CreateFailure::Overlap {
                    Err(Error::new(ErrorKind::InvalidInput, "Overlapping space exists"))
                } else {
                    Err(Error::new(ErrorKind::InternalError, "No identifiers left to assign"))
                }
            },
        }
    }

    /// Update metadata for an assignment space; the range is immutable.
    pub fn update_space(&mut self, id: i32, name: &str, description: &str) -> (r: Result<
        (),
        Error,
    >)
        requires
            old(self).wf(),
        ensures
            final(self).wf(),
            r is Ok,
            final(self).engine().next_space() == old(self).engine().next_space(),
            final(self).engine().next_pool() == old(self).engine().next_pool(),
            final(self).engine().next_assignment() == old(self).engine().next_assignment(),
            final(self).pools() == old(self).pools(),
            final(self).assignments() == old(self).assignments(),
            final(self).spaces().len() == old(self).spaces().len(),
            forall|j: int|
                0 <= j < old(self).spaces().len() && old(self).spaces()[j].id != id ==> final(
                    self).spaces()[j] == old(self).spaces()[j],
            forall|j: int|
                0 <= j < old(self).spaces().len() && old(self).spaces()[j].id == id
                    ==> crate::engine::meta_updated(
                    final(self).spaces()[j],
                    old(self).spaces()[j],
                    name@,
                    description@,
                ),
    {
        self.eng.update_space_meta(id, name, description);
        proof {
            assert forall|i: int|
                0 <= i < self.spaces().len() implies (#[trigger] self.spaces()[i]).lo
                <= 0xffff_ffffu128 && self.spaces()[i].hi <= 0xffff_ffffu128 by {
                assert(old(self).spaces()[i].lo <= 0xffff_ffffu128);
            };
        }
        Ok(())
    }

    /// Delete an assignment space.
    /// Also deletes all pools and assignments in the space.
    pub fn delete_space(&mut self, space_id: i32) -> (r: Result<(), Error>)
        requires
            old(self).wf(),
        ensures
            final(self).wf(),
            r is Ok,
            final(self).engine().next_space() == old(self).engine().next_space(),
            final(self).engine().next_pool() == old(self).engine().next_pool(),
            final(self).engine().next_assignment() == old(self).engine().next_assignment(),
            !has_id(final(self).spaces(), space_id),
            forall|x: Row|
                final(self).spaces().contains(x) <==> (old(self).spaces().contains(x) && x.id
                    != space_id),
            forall|x: Row|
                final(self).pools().contains(x) <==> (old(self).pools().contains(x) && x.parent_id
                    != space_id),
            forall|x: Row|
                final(self).assignments().contains(x) <==> (old(self).assignments().contains(x)
                    && !crate::engine::pool_under_space(old(self).pools(), space_id, x.parent_id)),
    {
        self.eng.delete_space(space_id);
        proof {
            assert forall|i: int|
                0 <= i < self.spaces().len() implies (#[trigger] self.spaces()[i]).lo
                <= 0xffff_ffffu128 && self.spaces()[i].hi <= 0xffff_ffffu128 by {
                assert(self.spaces().contains(self.spaces()[i]));
                let oi = choose|oi: int|
                    0 <= oi < old(self).spaces().len() && old(self).spaces()[oi]
                        == self.spaces()[i];
            };
            assert forall|i: int|
                0 <= i < self.pools().len() implies (#[trigger] self.pools()[i]).lo
                <= 0xffff_ffffu128 && self.pools()[i].hi <= 0xffff_ffffu128 by {
                assert(self.pools().contains(self.pools()[i]));
                let oi = choose|oi: int|
                    0 <= oi < old(self).pools().len() && old(self).pools()[oi] == self.pools()[i];
            };
            assert forall|i: int|
                0 <= i < self.assignments().len() implies (#[trigger] self.assignments()[i]).lo
                <= 0xffff_ffffu128 && self.assignments()[i].hi <= 0xffff_ffffu128
                && self.assignments()[i].lo == self.assignments()[i].hi by {
                assert(self.assignments().contains(self.assignments()[i]));
                let oi = choose|oi: int|
                    0 <= oi < old(self).assignments().len() && old(self).assignments()[oi]
                        == self.assignments()[i];
            };
        }
        Ok(())
    }

    /// Get an assignment pool by ID
    pub fn get_pool(&self, pool_id: i32) -> (r: Result<AssignmentPoolAsn, Error>)
        requires
            self.wf(),
        ensures
            match r {
                Ok(p) => has_id(self.pools(), pool_id) && asn_pool_matches(
                    p,
                    row_at_id(self.pools(), pool_id),
                ),
                Err(e) => !has_id(self.pools(), pool_id) && e.spec_kind() == ErrorKind::NotFound,
            },
    {
        match self.eng.get_pool(pool_id) {
            Some(row) => {
                proof {
                    let idx = choose|i: int|
                        0 <= i < self.pools().len() && self.pools()[i].id == pool_id;
                    assert(self.pools()[idx].hi <= 0xffff_ffffu128);
                }
                Ok(
                    AssignmentPoolAsn {
                        id: row.id,
                        assignment_space_id: row.parent_id,
                        name: row.name.clone(),
                        description: row.description.clone(),
                        pool_visibility: row.visibility,
                        asn_from: row.lo as u32,
                        asn_to: row.hi as u32,
                    },
                )
            },
            None => Err(Error::new(ErrorKind::NotFound, "Assignment pool not found")),
        }
    }

    /// Get all assignment pools in a space, in ascending range order
    pub fn get_pools(&self, space_id: i32) -> (r: Result<Vec<AssignmentPoolAsn>, Error>)
        requires
            self.wf(),
        ensures
            match r {
                Ok(v) => {
                    let f = self.pools().filter(|x: Row| x.parent_id == space_id);
                    v@.len() == f.len() && forall|i: int|
                        0 <= i < v@.len() ==> asn_pool_matches(#[trigger] v@[i], f[i])
                },
                Err(_) => false,
            },
    {
        let rows = self.eng.pools_of(space_id);
        proof {
            crate::engine::lemma_filter_level(
                self.pools(),
                |x: Row| x.parent_id == space_id,
                1,
            );
        }
        let n: usize = rows.len();
        let mut out: Vec<AssignmentPoolAsn> = Vec::new();
        let mut i: usize = 0;
        while i < n
            invariant
                i <= n,
                n == rows@.len(),
                self.wf(),
                rows@ =~= self.pools().filter(|x: Row| x.parent_id == space_id),
                forall|x: Row| rows@.contains(x) ==> self.pools().contains(x),
                out@.len() == i,
                forall|j: int| 0 <= j < i ==> asn_pool_matches(#[trigger] out@[j], rows@[j]),
            decreases n - i,
        {
            proof {
                assert(rows@.contains(rows@[i as int]));
                let oi = choose|oi: int|
                    0 <= oi < self.pools().len() && self.pools()[oi] == rows@[i as int];
                assert(self.pools()[oi].hi <= 0xffff_ffffu128);
            }
            let row = &rows[i];
            out.push(
                AssignmentPoolAsn {
                    id: row.id,
                    assignment_space_id: row.parent_id,
                    name: row.name.clone(),
                    description: row.description.clone(),
                    pool_visibility: row.visibility,
                    asn_from: row.lo as u32,
                    asn_to: row.hi as u32,
                },
            );
            i = i + 1;
        }
        Ok(out)
    }

    /// Create a new assignment pool.
    /// Returns the ID of the new assignment pool; the ID in the input is
    /// ignored. The parent space must exist, the pool's range must lie
    /// inside the space's range, and it must not overlap a pool of the
    /// same space.
    pub fn create_pool(&mut self, pool: &AssignmentPoolAsn) -> (r: Result<i32, Error>)
        requires
            old(self).wf(),
        ensures
            final(self).wf(),
            final(self).spaces() == old(self).spaces(),
            final(self).assignments() == old(self).assignments(),
            ({
                let valid = pool.asn_from <= pool.asn_to;
                let pok = has_id(old(self).spaces(), pool.assignment_space_id);
                let parent = row_at_id(old(self).spaces(), pool.assignment_space_id);
                let inside = parent.lo <= pool.asn_from as u128 && pool.asn_to as u128
                    <= parent.hi;
                let clash = exists_overlap(
                    old(self).pools(),
                    pool.assignment_space_id,
                    pool.asn_from as u128,
                    pool.asn_to as u128,
                );
                let room = old(self).engine().next_pool() < i32::MAX;
                &&& (r is Ok <==> valid && pok && inside && !clash && room)
                &&& match r {
                    Ok(id) => {
                        &&& id == old(self).engine().next_pool()
                        &&& final(self).engine().next_pool() == old(self).engine().next_pool() + 1
                        &&& final(self).engine().next_space() == old(self).engine().next_space()
                        &&& final(self).engine().next_assignment() == old(
                            self).engine().next_assignment()
                        &&& !has_id(old(self).pools(), id)
                        &&& has_id(final(self).pools(), id)
                        &&& final(self).pools().len() == old(self).pools().len() + 1
                        &&& ({
                            let row = row_at_id(final(self).pools(), id);
                            row.id == id && row.parent_id == pool.assignment_space_id && row.name
                                == pool.name && row.description == pool.description
                                && row.visibility == pool.pool_visibility && row.lo
                                == pool.asn_from as u128 && row.hi == pool.asn_to as u128
                        })
                        &&& forall|x: Row|
                            old(self).pools().contains(x) ==> final(self).pools().contains(x)
                        &&& forall|x: Row|
                            final(self).pools().contains(x) ==> old(self).pools().contains(x) || x
                                == row_at_id(final(self).pools(), id)
                    },
                    Err(e) => {
                        &&& *final(self) == *old(self)
                        &&& (e.spec_kind() == ErrorKind::NotFound <==> valid && !pok)
                        &&& (e.spec_kind() == ErrorKind::InvalidInput <==> !valid || (pok && (
                        !inside || clash)))
                        &&& (e.spec_kind() == ErrorKind::InternalError <==> valid && pok && inside
                            && !clash && !room)
                    },
                }
            }),
    {
        if pool.asn_from > pool.asn_to {
            return Err(Error::new(ErrorKind::InvalidInput, "Invalid ASN range"));
        }
        let lo: u128 = pool.asn_from as u128;
        let hi: u128 = pool.asn_to as u128;
        let ghost s = self.pools();
        let res = self.eng.create_pool(
            pool.assignment_space_id,
            pool.name.clone(),
            pool.description.clone(),
            pool.pool_visibility,
            lo,
            hi,
            [0u8; 16],
            0,
        );
        match res {
            Ok(id) => {
                proof {
                    let mrow = row_at_id(self.pools(), id);
                    let k = choose|k: int| 0 <= k <= s.len() && self.pools() =~= s.insert(k, mrow);
                    crate::engine::lemma_insert_contains(s, k, mrow);
                    assert forall|i: int|
                        0 <= i < self.pools().len() implies (#[trigger] self.pools()[i]).lo
                        <= 0xffff_ffffu128 && self.pools()[i].hi <= 0xffff_ffffu128 by {
                        assert(self.pools().contains(self.pools()[i]));
                        if self.pools()[i] != mrow {
                            let oi = choose|oi: int| 0 <= oi < s.len() && s[oi] == self.pools()[i];
                        }
                    };
                }
                Ok(id)
            },
            Err(f) => {
                if f == CreateFailure::ParentMissing {
                    Err(Error::new(ErrorKind::NotFound, "Assignment space not found"))
                } else if f == CreateFailure::NotContained {
                    Err(
                        Error::new(
                            ErrorKind::InvalidInput,
                            "Pool ASN range is out of space range",
                        ),
                    )
                } else if f == CreateFailure::Overlap {
                    Err(Error::new(ErrorKind::InvalidInput, "Overlapping assignment pool exists"))
                } else {
                    Err(Error::new(ErrorKind::InternalError, "No identifiers left to assign"))
                }
            },
        }
    }

    /// Update metadata for an assignment pool; the range is immutable.
    pub fn update_pool(&mut self, id: i32, name: &str, description: &str) -> (r: Result<(), Error>)
        requires
            old(self).wf(),
        ensures
            final(self).wf(),
            r is Ok,
            final(self).engine().next_space() == old(self).engine().next_space(),
            final(self).engine().next_pool() == old(self).engine().next_pool(),
            final(self).engine().next_assignment() == old(self).engine().next_assignment(),
            final(self).spaces() == old(self).spaces(),
            final(self).assignments() == old(self).assignments(),
            final(self).pools().len() == old(self).pools().len(),
            forall|j: int|
                0 <= j < old(self).pools().len() && old(self).pools()[j].id != id ==> final(
                    self).pools()[j] == old(self).pools()[j],
            forall|j: int|
                0 <= j < old(self).pools().len() && old(self).pools()[j].id == id
                    ==> crate::engine::meta_updated(
                    final(self).pools()[j],
                    old(self).pools()[j],
                    name@,
                    description@,
                ),
    {
        self.eng.update_pool_meta(id, name, description);
        proof {
            assert forall|i: int|
                0 <= i < self.pools().len() implies (#[trigger] self.pools()[i]).lo
                <= 0xffff_ffffu128 && self.pools()[i].hi <= 0xffff_ffffu128 by {
                assert(old(self).pools()[i].lo <= 0xffff_ffffu128);
            };
        }
        Ok(())
    }

    /// Delete an assignment pool.
    /// Also deletes all assignments in the pool.
    pub fn delete_pool(&mut self, pool_id: i32) -> (r: Result<(), Error>)
        requires
            old(self).wf(),
        ensures
            final(self).wf(),
            r is Ok,
            final(self).engine().next_space() == old(self).engine().next_space(),
            final(self).engine().next_pool() == old(self).engine().next_pool(),
            final(self).engine().next_assignment() == old(self).engine().next_assignment(),
            final(self).spaces() == old(self).spaces(),
            !has_id(final(self).pools(), pool_id),
            forall|x: Row|
                final(self).pools().contains(x) <==> (old(self).pools().contains(x) && x.id
                    != pool_id),
            forall|x: Row|
                final(self).assignments().contains(x) <==> (old(self).assignments().contains(x)
                    && x.parent_id != pool_id),
    {
        self.eng.delete_pool(pool_id);
        proof {
            assert forall|i: int|
                0 <= i < self.pools().len() implies (#[trigger] self.pools()[i]).lo
                <= 0xffff_ffffu128 && self.pools()[i].hi <= 0xffff_ffffu128 by {
                assert(self.pools().contains(self.pools()[i]));
                let oi = choose|oi: int|
                    0 <= oi < old(self).pools().len() && old(self).pools()[oi] == self.pools()[i];
            };
            assert forall|i: int|
                0 <= i < self.assignments().len() implies (#[trigger] self.assignments()[i]).lo
                <= 0xffff_ffffu128 && self.assignments()[i].hi <= 0xffff_ffffu128
                && self.assignments()[i].lo == self.assignments()[i].hi by {
                assert(self.assignments().contains(self.assignments()[i]));
                let oi = choose|oi: int|
                    0 <= oi < old(self).assignments().len() && old(self).assignments()[oi]
                        == self.assignments()[i];
            };
        }
        Ok(())
    }

    /// Get an assignment by ID
    pub fn get_assignment(&self, assignment_id: i32) -> (r: Result<AssignmentAsn, Error>)
        requires
            self.wf(),
        ensures
            match r {
                Ok(a) => has_id(self.assignments(), assignment_id) && asn_assignment_matches(
                    a,
                    row_at_id(self.assignments(), assignment_id),
                ),
                Err(e) => !has_id(self.assignments(), assignment_id) && e.spec_kind()
                    == ErrorKind::NotFound,
            },
    {
        match self.eng.get_assignment(assignment_id) {
            Some(row) => {
                proof {
                    let idx = choose|i: int|
                        0 <= i < self.assignments().len() && self.assignments()[i].id
                            == assignment_id;
                    assert(self.assignments()[idx].hi <= 0xffff_ffffu128);
                }
                Ok(
                    AssignmentAsn {
                        id: row.id,
                        assignment_pool_id: row.parent_id,
                        name: row.name.clone(),
                        description: row.description.clone(),
                        assignment_visibility: row.visibility,
                        asn: row.lo as u32,
                    },
                )
            },
            None => Err(Error::new(ErrorKind::NotFound, "Assignment not found")),
        }
    }

    /// Get all assignments in a pool, in ascending value order
    pub fn get_assignments(&self, pool_id: i32) -> (r: Result<Vec<AssignmentAsn>, Error>)
        requires
            self.wf(),
        ensures
            match r {
                Ok(v) => {
                    let f = self.assignments().filter(|x: Row| x.parent_id == pool_id);
                    v@.len() == f.len() && forall|i: int|
                        0 <= i < v@.len() ==> asn_assignment_matches(#[trigger] v@[i], f[i])
                },
                Err(_) => false,
            },
    {
        let rows = self.eng.assignments_of(pool_id);
        proof {
            crate::engine::lemma_filter_level(
                self.assignments(),
                |x: Row| x.parent_id == pool_id,
                1,
            );
        }
        let n: usize = rows.len();
        let mut out: Vec<AssignmentAsn> = Vec::new();
        let mut i: usize = 0;
        while i < n
            invariant
                i <= n,
                n == rows@.len(),
                self.wf(),
                rows@ =~= self.assignments().filter(|x: Row| x.parent_id == pool_id),
                forall|x: Row| rows@.contains(x) ==> self.assignments().contains(x),
                out@.len() == i,
                forall|j: int| 0 <= j < i ==> asn_assignment_matches(#[trigger] out@[j], rows@[j]),
            decreases n - i,
        {
            proof {
                assert(rows@.contains(rows@[i as int]));
                let oi = choose|oi: int|
                    0 <= oi < self.assignments().len() && self.assignments()[oi]
                        == rows@[i as int];
                assert(self.assignments()[oi].hi <= 0xffff_ffffu128);
            }
            let row = &rows[i];
            out.push(
                AssignmentAsn {
                    id: row.id,
                    assignment_pool_id: row.parent_id,
                    name: row.name.clone(),
                    description: row.description.clone(),
                    assignment_visibility: row.visibility,
                    asn: row.lo as u32,
                },
            );
            i = i + 1;
        }
        Ok(out)
    }

    /// Create a new assignment.
    /// Returns the ID of the new assignment; the ID in the input is
    /// ignored. The parent pool must exist and the value must lie in the
    /// pool's range. Duplicate detection is scoped to the parent pool: the
    /// same value may be assigned again under a different pool.
    pub fn create_assignment(&mut self, assignment: &AssignmentAsn) -> (r: Result<i32, Error>)
        requires
            old(self).wf(),
        ensures
            final(self).wf(),
            final(self).spaces() == old(self).spaces(),
            final(self).pools() == old(self).pools(),
            ({
                let pok = has_id(old(self).pools(), assignment.assignment_pool_id);
                let parent = row_at_id(old(self).pools(), assignment.assignment_pool_id);
                let inside = parent.lo <= assignment.asn as u128 && assignment.asn as u128
                    <= parent.hi;
                let clash = exists_overlap(
                    old(self).assignments(),
                    assignment.assignment_pool_id,
                    assignment.asn as u128,
                    assignment.asn as u128,
                );
                let room = old(self).engine().next_assignment() < i32::MAX;
                &&& (r is Ok <==> pok && inside && !clash && room)
                &&& match r {
                    Ok(id) => {
                        &&& id == old(self).engine().next_assignment()
                        &&& final(self).engine().next_assignment() == old(
                            self).engine().next_assignment() + 1
                        &&& final(self).engine().next_space() == old(self).engine().next_space()
                        &&& final(self).engine().next_pool() == old(self).engine().next_pool()
                        &&& !has_id(old(self).assignments(), id)
                        &&& has_id(final(self).assignments(), id)
                        &&& final(self).assignments().len() == old(self).assignments().len() + 1
                        &&& ({
                            let row = row_at_id(final(self).assignments(), id);
                            row.id == id && row.parent_id == assignment.assignment_pool_id
                                && row.name == assignment.name && row.description
                                == assignment.description && row.visibility
                                == assignment.assignment_visibility && row.lo == assignment.asn
                                as u128 && row.hi == assignment.asn as u128
                        })
                        &&& forall|x: Row|
                            old(self).assignments().contains(x) ==> final(
                                self).assignments().contains(x)
                        &&& forall|x: Row|
                            final(self).assignments().contains(x) ==> old(
                                self).assignments().contains(x) || x == row_at_id(
                                final(self).assignments(),
                                id,
                            )
                    },
                    Err(e) => {
                        &&& *final(self) == *old(self)
                        &&& (e.spec_kind() == ErrorKind::NotFound <==> !pok)
                        &&& (e.spec_kind() == ErrorKind::InvalidInput <==> pok && (!inside
                            || clash))
                        &&& (e.spec_kind() == ErrorKind::InternalError <==> pok && inside && !clash
                            && !room)
                    },
                }
            }),
    {
        let lo: u128 = assignment.asn as u128;
        let ghost s = self.assignments();
        let res = self.eng.create_assignment(
            assignment.assignment_pool_id,
            assignment.name.clone(),
            assignment.description.clone(),
            assignment.assignment_visibility,
            lo,
            lo,
            [0u8; 16],
            0,
        );
        match res {
            Ok(id) => {
                proof {
                    let mrow = row_at_id(self.assignments(), id);
                    let k = choose|k: int|
                        0 <= k <= s.len() && self.assignments() =~= s.insert(k, mrow);
                    crate::engine::lemma_insert_contains(s, k, mrow);
                    assert forall|i: int|
                        0 <= i < self.assignments().len() implies (
                    #[trigger] self.assignments()[i]).lo <= 0xffff_ffffu128
                        && self.assignments()[i].hi <= 0xffff_ffffu128
                        && self.assignments()[i].lo == self.assignments()[i].hi by {
                        assert(self.assignments().contains(self.assignments()[i]));
                        if self.assignments()[i] != mrow {
                            let oi = choose|oi: int|
                                0 <= oi < s.len() && s[oi] == self.assignments()[i];
                        }
                    };
                }
                Ok(id)
            },
            Err(f) => {
                if f == CreateFailure::ParentMissing {
                    Err(Error::new(ErrorKind::NotFound, "Assignment pool not found"))
                } else if f == CreateFailure::NotContained {
                    Err(
                        Error::new(
                            ErrorKind::InvalidInput,
                            "Assignment ASN is out of pool range",
                        ),
                    )
                } else if f == CreateFailure::Overlap {
                    Err(Error::new(ErrorKind::InvalidInput, "Overlapping assignment exists"))
                } else {
                    Err(Error::new(ErrorKind::InternalError, "No identifiers left to assign"))
                }
            },
        }
    }

    /// Update metadata for an assignment; the value is immutable.
    pub fn update_assignment(&mut self, id: i32, name: &str, description: &str) -> (r: Result<
        (),
        Error,
    >)
        requires
            old(self).wf(),
        ensures
            final(self).wf(),
            r is Ok,
            final(self).engine().next_space() == old(self).engine().next_space(),
            final(self).engine().next_pool() == old(self).engine().next_pool(),
            final(self).engine().next_assignment() == old(self).engine().next_assignment(),
            final(self).spaces() == old(self).spaces(),
            final(self).pools() == old(self).pools(),
            final(self).assignments().len() == old(self).assignments().len(),
            forall|j: int|
                0 <= j < old(self).assignments().len() && old(self).assignments()[j].id != id
                    ==> final(self).assignments()[j] == old(self).assignments()[j],
            forall|j: int|
                0 <= j < old(self).assignments().len() && old(self).assignments()[j].id == id
                    ==> crate::engine::meta_updated(
                    final(self).assignments()[j],
                    old(self).assignments()[j],
                    name@,
                    description@,
                ),
    {
        self.eng.update_assignment_meta(id, name, description);
        proof {
            assert forall|i: int|
                0 <= i < self.assignments().len() implies (#[trigger] self.assignments()[i]).lo
                <= 0xffff_ffffu128 && self.assignments()[i].hi <= 0xffff_ffffu128
                && self.assignments()[i].lo == self.assignments()[i].hi by {
                assert(old(self).assignments()[i].lo <= 0xffff_ffffu128);
            };
        }
        Ok(())
    }

    /// Delete an assignment.
    pub fn delete_assignment(&mut self, assignment_id: i32) -> (r: Result<(), Error>)
        requires
            old(self).wf(),
        ensures
            final(self).wf(),
            r is Ok,
            final(self).engine().next_space() == old(self).engine().next_space(),
            final(self).engine().next_pool() == old(self).engine().next_pool(),
            final(self).engine().next_assignment() == old(self).engine().next_assignment(),
            final(self).spaces() == old(self).spaces(),
            final(self).pools() == old(self).pools(),
            !has_id(final(self).assignments(), assignment_id),
            forall|x: Row|
                final(self).assignments().contains(x) <==> (old(self).assignments().contains(x)
                    && x.id != assignment_id),
    {
        self.eng.delete_assignment(assignment_id);
        proof {
            assert forall|i: int|
                0 <= i < self.assignments().len() implies (#[trigger] self.assignments()[i]).lo
                <= 0xffff_ffffu128 && self.assignments()[i].hi <= 0xffff_ffffu128
                && self.assignments()[i].lo == self.assignments()[i].hi by {
                assert(self.assignments().contains(self.assignments()[i]));
                let oi = choose|oi: int|
                    0 <= oi < old(self).assignments().len() && old(self).assignments()[oi]
                        == self.assignments()[i];
            };
        }
        Ok(())
    }
}

} // verus!
