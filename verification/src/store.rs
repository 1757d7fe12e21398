//! The top-level store: one allocation store per numeric domain, plus the
//! user store.

use vstd::prelude::*;

use crate::asn::AsnAssignmentStore;
use crate::ipv4::Ipv4AssignmentStore;
use crate::ipv6::Ipv6AssignmentStore;
use crate::user::UserStore;

verus! {

/// All the tables of the system: users and API keys, and the three
/// allocation domains.
pub struct Store {
    users: UserStore,
    asn: AsnAssignmentStore,
    ipv4: Ipv4AssignmentStore,
    ipv6: Ipv6AssignmentStore,
}

impl Store {
    /// The user store, for specifications.
    pub closed spec fn user_store(self) -> UserStore {
        self.users
    }

    /// The ASN store, for specifications.
    pub closed spec fn asn_store(self) -> AsnAssignmentStore {
        self.asn
    }

    /// The IPv4 store, for specifications.
    pub closed spec fn ipv4_store(self) -> Ipv4AssignmentStore {
        self.ipv4
    }

    /// The IPv6 store, for specifications.
    pub closed spec fn ipv6_store(self) -> Ipv6AssignmentStore {
        self.ipv6
    }

    /// Every component store is well-formed.
    pub open spec fn wf(self) -> bool {
        &&& self.user_store().wf()
        &&& self.asn_store().wf()
        &&& self.ipv4_store().wf()
        &&& self.ipv6_store().wf()
    }

    /// A fresh, empty store.
    pub fn new() -> (r: Store)
        ensures
            r.wf(),
            r.user_store().users() =~= Seq::<crate::user::User>::empty(),
            r.asn_store().spaces() =~= Seq::<crate::engine::Row>::empty(),
            r.ipv4_store().spaces() =~= Seq::<crate::engine::Row>::empty(),
            r.ipv6_store().spaces() =~= Seq::<crate::engine::Row>::empty(),
    {
        Store {
            users: UserStore::new(),
            asn: AsnAssignmentStore::new(),
            ipv4: Ipv4AssignmentStore::new(),
            ipv6: Ipv6AssignmentStore::new(),
        }
    }

    /// The user store.
    pub fn users(&mut self) -> (r: &mut UserStore)
        ensures
            *r == old(self).user_store(),
            final(self).user_store() == *final(r),
            final(self).asn_store() == old(self).asn_store(),
            final(self).ipv4_store() == old(self).ipv4_store(),
            final(self).ipv6_store() == old(self).ipv6_store(),
    {
        &mut self.users
    }

    /// The ASN allocation store.
    pub fn asn_assignments(&mut self) -> (r: &mut AsnAssignmentStore)
        ensures
            *r == old(self).asn_store(),
            final(self).asn_store() == *final(r),
            final(self).user_store() == old(self).user_store(),
            final(self).ipv4_store() == old(self).ipv4_store(),
            final(self).ipv6_store() == old(self).ipv6_store(),
    {
        &mut self.asn
    }

    /// The IPv4 allocation store.
    pub fn ipv4_assignments(&mut self) -> (r: &mut Ipv4AssignmentStore)
        ensures
            *r == old(self).ipv4_store(),
            final(self).ipv4_store() == *final(r),
            final(self).user_store() == old(self).user_store(),
            final(self).asn_store() == old(self).asn_store(),
            final(self).ipv6_store() == old(self).ipv6_store(),
    {
        &mut self.ipv4
    }

    /// The IPv6 allocation store.
    pub fn ipv6_assignments(&mut self) -> (r: &mut Ipv6AssignmentStore)
        ensures
            *r == old(self).ipv6_store(),
            final(self).ipv6_store() == *final(r),
            final(self).user_store() == old(self).user_store(),
            final(self).asn_store() == old(self).asn_store(),
            final(self).ipv4_store() == old(self).ipv4_store(),
    {
        &mut self.ipv6
    }
}

} // verus!
