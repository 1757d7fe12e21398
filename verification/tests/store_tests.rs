use mirams::asn::AssignmentAsn;
use mirams::asn::AssignmentPoolAsn;
use mirams::asn::AssignmentSpaceAsn;
use mirams::ipv4::AssignmentIpv4;
use mirams::ipv4::AssignmentPoolIpv4;
use mirams::ipv4::AssignmentSpaceIpv4;
use mirams::ipv6::AssignmentIpv6;
use mirams::ipv6::AssignmentPoolIpv6;
use mirams::ipv6::AssignmentSpaceIpv6;
use mirams::inet::parse_ipv6;
use mirams::types::ObjectVisibility;
use mirams::ErrorKind;
use mirams::Store;

fn v6(text: &str) -> [u8; 16] {
    parse_ipv6(text).unwrap()
}

#[test]
fn ipv4_assignment_store() {
    let mut store = Store::new();
    let ipv4_store = store.ipv4_assignments();
    let space = AssignmentSpaceIpv4 {
        id: 0,
        name: "Test assignment space".to_string(),
        description: "Description".to_string(),
        space_visibility: ObjectVisibility::Public,
        ipv4_prefix: [192, 168, 0, 0],
        ipv4_prefix_len: 16,
    };
    let space_id = ipv4_store.create_space(&space).unwrap();
    let space2 = AssignmentSpaceIpv4 {
        id: 0,
        name: "Test assignment space 2".to_string(),
        description: "Description".to_string(),
        space_visibility: ObjectVisibility::Public,
        ipv4_prefix: [172, 16, 0, 0],
        ipv4_prefix_len: 16,
    };
    ipv4_store.create_space(&space2).unwrap();
    let pool = AssignmentPoolIpv4 {
        id: 0,
        assignment_space_id: space_id,
        name: "Test pool".to_string(),
        description: "Description".to_string(),
        pool_visibility: ObjectVisibility::Public,
        ipv4_prefix: [192, 168, 0, 0],
        ipv4_prefix_len: 24,
    };
    let pool_id = ipv4_store.create_pool(&pool).unwrap();
    let pool2 = AssignmentPoolIpv4 {
        id: 0,
        assignment_space_id: space_id,
        name: "Test pool 2".to_string(),
        description: "Description".to_string(),
        pool_visibility: ObjectVisibility::Public,
        ipv4_prefix: [192, 168, 1, 0],
        ipv4_prefix_len: 24,
    };
    ipv4_store.create_pool(&pool2).unwrap();
    let overlapping_pool_1 = AssignmentPoolIpv4 {
        id: 0,
        assignment_space_id: space_id,
        name: "overlapping pool 1".to_string(),
        description: "Description".to_string(),
        pool_visibility: ObjectVisibility::Public,
        ipv4_prefix: [192, 168, 0, 0],
        ipv4_prefix_len: 24,
    };
    assert!(ipv4_store.create_pool(&overlapping_pool_1).is_err());
    let overlapping_pool_2 = AssignmentPoolIpv4 {
        id: 0,
        assignment_space_id: space_id,
        name: "overlapping pool 2".to_string(),
        description: "Description".to_string(),
        pool_visibility: ObjectVisibility::Public,
        ipv4_prefix: [192, 168, 0, 128],
        ipv4_prefix_len: 25,
    };
    assert!(ipv4_store.create_pool(&overlapping_pool_2).is_err());
    let overlapping_pool_3 = AssignmentPoolIpv4 {
        id: 0,
        assignment_space_id: space_id,
        name: "overlapping pool 3".to_string(),
        description: "Description".to_string(),
        pool_visibility: ObjectVisibility::Public,
        ipv4_prefix: [192, 168, 0, 0],
        ipv4_prefix_len: 23,
    };
    assert!(ipv4_store.create_pool(&overlapping_pool_3).is_err());
    let assignment = AssignmentIpv4 {
        id: 0,
        assignment_pool_id: pool_id,
        name: "Test assignment".to_string(),
        description: "Description".to_string(),
        assignment_visibility: ObjectVisibility::Public,
        ipv4_prefix: [192, 168, 0, 1],
        ipv4_prefix_len: 32,
    };
    let assignment_id = ipv4_store.create_assignment(&assignment).unwrap();
    assert!(ipv4_store.get_space(space_id).is_ok());
    assert!(ipv4_store.get_pool(pool_id).is_ok());
    assert!(ipv4_store.get_assignment(assignment_id).is_ok());
    assert_eq!(ipv4_store.get_pools(space_id).unwrap().len(), 2);
    ipv4_store.delete_space(space_id).unwrap();
    assert!(ipv4_store.get_space(space_id).is_err());
}

#[test]
fn ipv6_assignment_store() {
    let mut store = Store::new();
    let ipv6_store = store.ipv6_assignments();
    let space = AssignmentSpaceIpv6 {
        id: 0,
        name: "Test assignment space".to_string(),
        description: "Description".to_string(),
        space_visibility: ObjectVisibility::Public,
        ipv6_prefix: v6("2001:db8::"),
        ipv6_prefix_len: 32,
    };
    let space_id = ipv6_store.create_space(&space).unwrap();
    let space2 = AssignmentSpaceIpv6 {
        id: 0,
        name: "Test assignment space 2".to_string(),
        description: "Description".to_string(),
        space_visibility: ObjectVisibility::Public,
        ipv6_prefix: v6("fd12:3456::"),
        ipv6_prefix_len: 32,
    };
    ipv6_store.create_space(&space2).unwrap();
    let pool = AssignmentPoolIpv6 {
        id: 0,
        assignment_space_id: space_id,
        name: "Test pool".to_string(),
        description: "Description".to_string(),
        pool_visibility: ObjectVisibility::Public,
        ipv6_prefix: v6("2001:db8::"),
        ipv6_prefix_len: 48,
    };
    let pool_id = ipv6_store.create_pool(&pool).unwrap();
    let pool2 = AssignmentPoolIpv6 {
        id: 0,
        assignment_space_id: space_id,
        name: "Test pool 2".to_string(),
        description: "Description".to_string(),
        pool_visibility: ObjectVisibility::Public,
        ipv6_prefix: v6("2001:db8:1::"),
        ipv6_prefix_len: 48,
    };
    ipv6_store.create_pool(&pool2).unwrap();
    let overlapping_pool_1 = AssignmentPoolIpv6 {
        id: 0,
        assignment_space_id: space_id,
        name: "overlapping pool 1".to_string(),
        description: "Description".to_string(),
        pool_visibility: ObjectVisibility::Public,
        ipv6_prefix: v6("2001:db8::"),
        ipv6_prefix_len: 48,
    };
    assert!(ipv6_store.create_pool(&overlapping_pool_1).is_err());
    let overlapping_pool_2 = AssignmentPoolIpv6 {
        id: 0,
        assignment_space_id: space_id,
        name: "overlapping pool 2".to_string(),
        description: "Description".to_string(),
        pool_visibility: ObjectVisibility::Public,
        ipv6_prefix: v6("2001:db8:1:8000::"),
        ipv6_prefix_len: 49,
    };
    assert!(ipv6_store.create_pool(&overlapping_pool_2).is_err());
    let overlapping_pool_3 = AssignmentPoolIpv6 {
        id: 0,
        assignment_space_id: space_id,
        name: "overlapping pool 3".to_string(),
        description: "Description".to_string(),
        pool_visibility: ObjectVisibility::Public,
        ipv6_prefix: v6("2001:db8::"),
        ipv6_prefix_len: 47,
    };
    assert!(ipv6_store.create_pool(&overlapping_pool_3).is_err());
    let assignment = AssignmentIpv6 {
        id: 0,
        assignment_pool_id: pool_id,
        name: "Test assignment".to_string(),
        description: "Description".to_string(),
        assignment_visibility: ObjectVisibility::Public,
        ipv6_prefix: v6("2001:db8:0:1::"),
        ipv6_prefix_len: 64,
    };
    let assignment_id = ipv6_store.create_assignment(&assignment).unwrap();
    assert!(ipv6_store.get_space(space_id).is_ok());
    assert!(ipv6_store.get_pool(pool_id).is_ok());
    assert!(ipv6_store.get_assignment(assignment_id).is_ok());
    assert_eq!(ipv6_store.get_pools(space_id).unwrap().len(), 2);
    ipv6_store.delete_space(space_id).unwrap();
    assert!(ipv6_store.get_space(space_id).is_err());
    assert!(ipv6_store.get_assignment(assignment_id).is_err());
}

#[test]
fn asn_store() {
    let mut store = Store::new();
    let asn_store = store.asn_assignments();
    let space = AssignmentSpaceAsn {
        id: 0,
        name: "Test assignment space".to_string(),
        description: "Description".to_string(),
        space_visibility: ObjectVisibility::Public,
        asn_from: 65000,
        asn_to: 65199,
    };
    let space_id = asn_store.create_space(&space).unwrap();
    let space2 = AssignmentSpaceAsn {
        id: 0,
        name: "Test assignment space 2".to_string(),
        description: "Description".to_string(),
        space_visibility: ObjectVisibility::Public,
        asn_from: 65200,
        asn_to: 65399,
    };
    asn_store.create_space(&space2).unwrap();
    let pool = AssignmentPoolAsn {
        id: 0,
        assignment_space_id: space_id,
        name: "Test pool".to_string(),
        description: "Description".to_string(),
        pool_visibility: ObjectVisibility::Public,
        asn_from: 65000,
        asn_to: 65099,
    };
    let pool_id = asn_store.create_pool(&pool).unwrap();
    let pool2 = AssignmentPoolAsn {
        id: 0,
        assignment_space_id: space_id,
        name: "Test pool 2".to_string(),
        description: "Description".to_string(),
        pool_visibility: ObjectVisibility::Public,
        asn_from: 65100,
        asn_to: 65199,
    };
    asn_store.create_pool(&pool2).unwrap();
    let overlapping_pool_1 = AssignmentPoolAsn {
        id: 0,
        assignment_space_id: space_id,
        name: "overlapping pool 1".to_string(),
        description: "Description".to_string(),
        pool_visibility: ObjectVisibility::Public,
        asn_from: 65000,
        asn_to: 65099,
    };
    assert!(asn_store.create_pool(&overlapping_pool_1).is_err());
    let overlapping_pool_2 = AssignmentPoolAsn {
        id: 0,
        assignment_space_id: space_id,
        name: "overlapping pool 2".to_string(),
        description: "Description".to_string(),
        pool_visibility: ObjectVisibility::Public,
        asn_from: 65050,
        asn_to: 65149,
    };
    assert!(asn_store.create_pool(&overlapping_pool_2).is_err());
    let overlapping_pool_3 = AssignmentPoolAsn {
        id: 0,
        assignment_space_id: space_id,
        name: "overlapping pool 3".to_string(),
        description: "Description".to_string(),
        pool_visibility: ObjectVisibility::Public,
        asn_from: 65000,
        asn_to: 65098,
    };
    assert!(asn_store.create_pool(&overlapping_pool_3).is_err());
    let assignment = AssignmentAsn {
        id: 0,
        assignment_pool_id: pool_id,
        name: "Test assignment".to_string(),
        description: "Description".to_string(),
        assignment_visibility: ObjectVisibility::Public,
        asn: 65000,
    };
    let assignment_id = asn_store.create_assignment(&assignment).unwrap();
    assert!(asn_store.get_space(space_id).is_ok());
    assert!(asn_store.get_pool(pool_id).is_ok());
    assert!(asn_store.get_assignment(assignment_id).is_ok());
    assert_eq!(asn_store.get_pools(space_id).unwrap().len(), 2);
    asn_store.delete_space(space_id).unwrap();
    assert!(asn_store.get_space(space_id).is_err());
    assert!(asn_store.get_assignment(assignment_id).is_err());
}

#[test]
fn ipv4_scenario_overlap() {
    // Space 192.168.0.0/16; pool 192.168.0.0/24 fits; pool
    // 192.168.0.128/25 overlaps it; pool 192.168.1.0/24 is disjoint.
    let mut store = Store::new();
    let s = store.ipv4_assignments();
    let space_id = s
        .create_space(&AssignmentSpaceIpv4 {
            id: 0,
            name: "s".to_string(),
            description: "d".to_string(),
            space_visibility: ObjectVisibility::Public,
            ipv4_prefix: [192, 168, 0, 0],
            ipv4_prefix_len: 16,
        })
        .unwrap();
    let mk = |name: &str, prefix: [u8; 4], len: i32| AssignmentPoolIpv4 {
        id: 0,
        assignment_space_id: space_id,
        name: name.to_string(),
        description: "d".to_string(),
        pool_visibility: ObjectVisibility::Public,
        ipv4_prefix: prefix,
        ipv4_prefix_len: len,
    };
    assert!(s.create_pool(&mk("a", [192, 168, 0, 0], 24)).is_ok());
    let clash = s.create_pool(&mk("b", [192, 168, 0, 128], 25));
    assert!(matches!(clash.unwrap_err().kind(), ErrorKind::InvalidInput));
    assert!(s.create_pool(&mk("c", [192, 168, 1, 0], 24)).is_ok());
}

#[test]
fn ipv6_scenario_overlap() {
    // Pool 2001:db8::/48 exists; sibling 2001:db8:1::/48 is disjoint;
    // 2001:db8::/47 covers the first and is refused.
    let mut store = Store::new();
    let s = store.ipv6_assignments();
    let space_id = s
        .create_space(&AssignmentSpaceIpv6 {
            id: 0,
            name: "s".to_string(),
            description: "d".to_string(),
            space_visibility: ObjectVisibility::Public,
            ipv6_prefix: v6("2001:db8::"),
            ipv6_prefix_len: 32,
        })
        .unwrap();
    let mk = |name: &str, prefix: [u8; 16], len: i32| AssignmentPoolIpv6 {
        id: 0,
        assignment_space_id: space_id,
        name: name.to_string(),
        description: "d".to_string(),
        pool_visibility: ObjectVisibility::Public,
        ipv6_prefix: prefix,
        ipv6_prefix_len: len,
    };
    assert!(s.create_pool(&mk("a", v6("2001:db8::"), 48)).is_ok());
    assert!(s.create_pool(&mk("b", v6("2001:db8:1::"), 48)).is_ok());
    let covering = s.create_pool(&mk("c", v6("2001:db8::"), 47));
    assert!(matches!(covering.unwrap_err().kind(), ErrorKind::InvalidInput));
}

#[test]
fn asn_scenario_assignment_scope() {
    // Space [65000,65199], pool [65000,65099]: assigning 65150 is outside
    // the pool; 65050 fits. Duplicate detection is scoped to the parent
    // pool, so the same value under a sibling pool succeeds.
    let mut store = Store::new();
    let s = store.asn_assignments();
    let space_id = s
        .create_space(&AssignmentSpaceAsn {
            id: 0,
            name: "s".to_string(),
            description: "d".to_string(),
            space_visibility: ObjectVisibility::Public,
            asn_from: 65000,
            asn_to: 65199,
        })
        .unwrap();
    let pool_id = s
        .create_pool(&AssignmentPoolAsn {
            id: 0,
            assignment_space_id: space_id,
            name: "p".to_string(),
            description: "d".to_string(),
            pool_visibility: ObjectVisibility::Public,
            asn_from: 65000,
            asn_to: 65099,
        })
        .unwrap();
    let sibling_id = s
        .create_pool(&AssignmentPoolAsn {
            id: 0,
            assignment_space_id: space_id,
            name: "q".to_string(),
            description: "d".to_string(),
            pool_visibility: ObjectVisibility::Public,
            asn_from: 65100,
            asn_to: 65199,
        })
        .unwrap();
    let mk = |pool: i32, asn: u32| AssignmentAsn {
        id: 0,
        assignment_pool_id: pool,
        name: "a".to_string(),
        description: "d".to_string(),
        assignment_visibility: ObjectVisibility::Public,
        asn,
    };
    let outside = s.create_assignment(&mk(pool_id, 65150));
    assert!(matches!(outside.unwrap_err().kind(), ErrorKind::InvalidInput));
    assert!(s.create_assignment(&mk(pool_id, 65050)).is_ok());
    // the same value again under the same pool is a duplicate
    assert!(s.create_assignment(&mk(pool_id, 65050)).is_err());
    // under a different sibling pool the value must lie in that pool's
    // range; a duplicate of a value held by another pool's assignment is
    // allowed when it does
    let second = s.create_assignment(&mk(sibling_id, 65150));
    assert!(second.is_ok());
}

#[test]
fn round_trip_ipv4_space() {
    let mut store = Store::new();
    let s = store.ipv4_assignments();
    let space = AssignmentSpaceIpv4 {
        id: 0,
        name: "Round trip".to_string(),
        description: "every field but the id".to_string(),
        space_visibility: ObjectVisibility::Private,
        ipv4_prefix: [10, 0, 0, 0],
        ipv4_prefix_len: 8,
    };
    let id = s.create_space(&space).unwrap();
    let got = s.get_space(id).unwrap();
    assert_eq!(got.id, id);
    assert_eq!(got.name, space.name);
    assert_eq!(got.description, space.description);
    assert_eq!(got.space_visibility, space.space_visibility);
    assert_eq!(got.ipv4_prefix, space.ipv4_prefix);
    assert_eq!(got.ipv4_prefix_len, space.ipv4_prefix_len);
}

#[test]
fn idempotent_reads() {
    let mut store = Store::new();
    let s = store.asn_assignments();
    let space_id = s
        .create_space(&AssignmentSpaceAsn {
            id: 0,
            name: "s".to_string(),
            description: "d".to_string(),
            space_visibility: ObjectVisibility::Public,
            asn_from: 100,
            asn_to: 200,
        })
        .unwrap();
    let first_get = s.get_space(space_id).unwrap();
    let second_get = s.get_space(space_id).unwrap();
    assert_eq!(first_get, second_get);
    let first_list = s.get_spaces().unwrap();
    let second_list = s.get_spaces().unwrap();
    assert_eq!(first_list, second_list);
}

#[test]
fn delete_space_cascades() {
    let mut store = Store::new();
    let s = store.asn_assignments();
    let space_id = s
        .create_space(&AssignmentSpaceAsn {
            id: 0,
            name: "s".to_string(),
            description: "d".to_string(),
            space_visibility: ObjectVisibility::Public,
            asn_from: 0,
            asn_to: 1000,
        })
        .unwrap();
    let pool_id = s
        .create_pool(&AssignmentPoolAsn {
            id: 0,
            assignment_space_id: space_id,
            name: "p".to_string(),
            description: "d".to_string(),
            pool_visibility: ObjectVisibility::Public,
            asn_from: 0,
            asn_to: 100,
        })
        .unwrap();
    let assignment_id = s
        .create_assignment(&AssignmentAsn {
            id: 0,
            assignment_pool_id: pool_id,
            name: "a".to_string(),
            description: "d".to_string(),
            assignment_visibility: ObjectVisibility::Public,
            asn: 42,
        })
        .unwrap();
    s.delete_space(space_id).unwrap();
    assert!(matches!(s.get_space(space_id).unwrap_err().kind(), ErrorKind::NotFound));
    assert!(matches!(s.get_pool(pool_id).unwrap_err().kind(), ErrorKind::NotFound));
    assert!(matches!(s.get_assignment(assignment_id).unwrap_err().kind(), ErrorKind::NotFound));
}

#[test]
fn create_checks_and_errors() {
    let mut store = Store::new();
    let s = store.ipv4_assignments();
    // parent that does not exist
    let orphan = AssignmentPoolIpv4 {
        id: 0,
        assignment_space_id: 77,
        name: "p".to_string(),
        description: "d".to_string(),
        pool_visibility: ObjectVisibility::Public,
        ipv4_prefix: [10, 0, 0, 0],
        ipv4_prefix_len: 24,
    };
    assert!(matches!(s.create_pool(&orphan).unwrap_err().kind(), ErrorKind::NotFound));
    // a non-normalized prefix is rejected, not silently corrected
    let crooked = AssignmentSpaceIpv4 {
        id: 0,
        name: "s".to_string(),
        description: "d".to_string(),
        space_visibility: ObjectVisibility::Public,
        ipv4_prefix: [10, 0, 0, 1],
        ipv4_prefix_len: 8,
    };
    assert!(matches!(s.create_space(&crooked).unwrap_err().kind(), ErrorKind::InvalidInput));
    // a prefix length out of the domain bound is rejected
    let too_long = AssignmentSpaceIpv4 {
        id: 0,
        name: "s".to_string(),
        description: "d".to_string(),
        space_visibility: ObjectVisibility::Public,
        ipv4_prefix: [10, 0, 0, 0],
        ipv4_prefix_len: 33,
    };
    assert!(matches!(s.create_space(&too_long).unwrap_err().kind(), ErrorKind::InvalidInput));
    // a child outside the parent's bounds is rejected and changes nothing
    let space_id = s
        .create_space(&AssignmentSpaceIpv4 {
            id: 0,
            name: "s".to_string(),
            description: "d".to_string(),
            space_visibility: ObjectVisibility::Public,
            ipv4_prefix: [10, 0, 0, 0],
            ipv4_prefix_len: 8,
        })
        .unwrap();
    let outside = AssignmentPoolIpv4 {
        id: 0,
        assignment_space_id: space_id,
        name: "p".to_string(),
        description: "d".to_string(),
        pool_visibility: ObjectVisibility::Public,
        ipv4_prefix: [11, 0, 0, 0],
        ipv4_prefix_len: 24,
    };
    assert!(matches!(s.create_pool(&outside).unwrap_err().kind(), ErrorKind::InvalidInput));
    assert_eq!(s.get_pools(space_id).unwrap().len(), 0);
}

#[test]
fn update_metadata_only() {
    let mut store = Store::new();
    let s = store.asn_assignments();
    let space_id = s
        .create_space(&AssignmentSpaceAsn {
            id: 0,
            name: "before".to_string(),
            description: "old".to_string(),
            space_visibility: ObjectVisibility::Private,
            asn_from: 5,
            asn_to: 10,
        })
        .unwrap();
    s.update_space(space_id, "after", "new").unwrap();
    let got = s.get_space(space_id).unwrap();
    assert_eq!(got.name, "after");
    assert_eq!(got.description, "new");
    assert_eq!(got.space_visibility, ObjectVisibility::Private);
    assert_eq!(got.asn_from, 5);
    assert_eq!(got.asn_to, 10);
    // updating an absent id is a no-op
    s.update_space(999, "x", "y").unwrap();
    assert!(s.get_space(999).is_err());
}

#[test]
fn list_order_ascending() {
    let mut store = Store::new();
    let s = store.asn_assignments();
    for (from, to) in [(500u32, 599u32), (100, 199), (300, 399)] {
        s.create_space(&AssignmentSpaceAsn {
            id: 0,
            name: "s".to_string(),
            description: "d".to_string(),
            space_visibility: ObjectVisibility::Public,
            asn_from: from,
            asn_to: to,
        })
        .unwrap();
    }
    let spaces = s.get_spaces().unwrap();
    let froms: Vec<u32> = spaces.iter().map(|x| x.asn_from).collect();
    assert_eq!(froms, vec![100, 300, 500]);
}

#[test]
fn sibling_overlap_audit_after_mixed_operations() {
    // A scripted sequence of creates and deletes; after every step a full
    // audit confirms that no two pools under the same space overlap.
    let mut store = Store::new();
    let s = store.asn_assignments();
    let space_a = s
        .create_space(&AssignmentSpaceAsn {
            id: 0,
            name: "a".to_string(),
            description: "d".to_string(),
            space_visibility: ObjectVisibility::Public,
            asn_from: 0,
            asn_to: 9999,
        })
        .unwrap();
    let space_b = s
        .create_space(&AssignmentSpaceAsn {
            id: 0,
            name: "b".to_string(),
            description: "d".to_string(),
            space_visibility: ObjectVisibility::Public,
            asn_from: 10000,
            asn_to: 19999,
        })
        .unwrap();
    let attempts: Vec<(i32, u32, u32)> = vec![
        (space_a, 0, 99),
        (space_a, 50, 149),      // overlaps
        (space_a, 100, 199),
        (space_b, 10000, 10099), // same shape under the other space is fine
        (space_a, 200, 299),
        (space_a, 0, 9999),      // overlaps everything
        (space_b, 10050, 10149), // overlaps
        (space_b, 10100, 10199),
    ];
    let mut created: Vec<i32> = Vec::new();
    for (step, (space, from, to)) in attempts.iter().enumerate() {
        let r = s.create_pool(&AssignmentPoolAsn {
            id: 0,
            assignment_space_id: *space,
            name: "p".to_string(),
            description: "d".to_string(),
            pool_visibility: ObjectVisibility::Public,
            asn_from: *from,
            asn_to: *to,
        });
        if let Ok(id) = r {
            created.push(id);
        }
        // delete one of the earlier pools now and then
        if step == 4 {
            let victim = created.remove(0);
            s.delete_pool(victim).unwrap();
        }
        // full-table overlap audit, per space
        for space_id in [space_a, space_b] {
            let pools = s.get_pools(space_id).unwrap();
            for i in 0..pools.len() {
                for j in 0..pools.len() {
                    if i != j {
                        let x = &pools[i];
                        let y = &pools[j];
                        assert!(
                            x.asn_to < y.asn_from || y.asn_to < x.asn_from,
                            "pools overlap"
                        );
                    }
                }
            }
        }
    }
}
