use circuit_consensus::plan::{
    direction_of, local_services, migration_direction, plan_migration, CircuitRoster,
    DirectionError, MigrationDirection, RosterService,
};

#[test]
fn direction_into_lmdb() {
    assert_eq!(
        migration_direction("postgres://db", "lmdb"),
        Ok(MigrationDirection::ToLmdb { database_uri: "postgres://db".to_string() })
    );
}

#[test]
fn direction_out_of_lmdb_any_case() {
    assert_eq!(
        migration_direction("LMDB", "sqlite.db"),
        Ok(MigrationDirection::FromLmdb { database_uri: "sqlite.db".to_string() })
    );
    assert_eq!(
        migration_direction("LmDb", "postgres://x"),
        Ok(MigrationDirection::FromLmdb { database_uri: "postgres://x".to_string() })
    );
}

#[test]
fn direction_errors() {
    assert_eq!(migration_direction("lmdb", "LMDB"), Err(DirectionError::LmdbToLmdb));
    assert_eq!(migration_direction("a.db", "b.db"), Err(DirectionError::NoLmdb));
}

#[test]
fn direction_from_lowered_names() {
    assert_eq!(
        direction_of("X", "Y", &"x".to_string(), &"lmdb".to_string()),
        Ok(MigrationDirection::ToLmdb { database_uri: "X".to_string() })
    );
    assert_eq!(
        direction_of("LMDB", "LMDB", &"LMDB".to_string(), &"LMDB".to_string()),
        Err(DirectionError::NoLmdb)
    );
}

fn svc(id: &str, ty: &str, node: &str) -> RosterService {
    RosterService { service_id: id.into(), service_type: ty.into(), node_id: node.into() }
}

#[test]
fn local_scabbard_services() {
    let circuits = vec![
        CircuitRoster {
            circuit_id: "c1".into(),
            roster: vec![svc("a0", "scabbard", "n1"), svc("a1", "scabbard", "n2"), svc("a2", "echo", "n1")],
        },
        CircuitRoster { circuit_id: "c2".into(), roster: vec![] },
        CircuitRoster {
            circuit_id: "c3".into(),
            roster: vec![svc("b0", "scabbard", "n1"), svc("b1", "scabbard", "n1")],
        },
    ];
    let got = local_services(&circuits, &"n1".to_string());
    assert_eq!(
        got,
        vec![
            ("c1".to_string(), "a0".to_string()),
            ("c3".to_string(), "b0".to_string()),
            ("c3".to_string(), "b1".to_string()),
        ]
    );
    assert!(local_services(&circuits, &"n9".to_string()).is_empty());
}

fn circuits() -> Vec<CircuitRoster> {
    vec![CircuitRoster {
        circuit_id: "c1".into(),
        roster: vec![svc("a0", "scabbard", "n1"), svc("a1", "scabbard", "n2")],
    }]
}

#[test]
fn plan_checks_direction_first() {
    assert_eq!(
        plan_migration("lmdb", "LMDB", &Some("n1".to_string()), &circuits()),
        Err(DirectionError::LmdbToLmdb)
    );
    assert_eq!(
        plan_migration("a", "b", &None, &vec![]),
        Err(DirectionError::NoLmdb)
    );
}

#[test]
fn plan_selects_local_services() {
    let plan = plan_migration("postgres://x", "lmdb", &Some("n1".to_string()), &circuits()).unwrap();
    assert_eq!(plan.direction, MigrationDirection::ToLmdb { database_uri: "postgres://x".to_string() });
    assert_eq!(plan.services, vec![("c1".to_string(), "a0".to_string())]);
}

#[test]
fn plan_without_node_id_or_circuits_is_empty() {
    let plan = plan_migration("lmdb", "db", &None, &circuits()).unwrap();
    assert!(plan.services.is_empty());
    let plan = plan_migration("lmdb", "db", &Some("n1".to_string()), &vec![]).unwrap();
    assert!(plan.services.is_empty());
}
