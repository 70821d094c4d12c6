use circuit_consensus::roles::{RoleBuildError, RoleBuilder, RoleUpdateBuilder};

/// Tests the role builder in both Ok and Err scenarios
/// 1. Construct a valid role
/// 2. Fail with no role_id
/// 3. Fail with an empty role_id
/// 4. Fail with no display name
/// 4. Succeed with empty display name
/// 5. Fail with empty permissions
#[test]
fn test_role_builder() {
    // Ok Role
    let role = RoleBuilder::default()
        .with_role_id("valid_role".into())
        .with_display_name("Valid Role".into())
        .with_permissions(vec!["a".to_string(), "b".to_string()])
        .build()
        .expect("could not build a valid role");

    assert_eq!("valid_role", &role.role_id);
    assert_eq!("Valid Role", &role.display_name);
    assert_eq!(vec!["a".to_string(), "b".to_string()], role.permissions);

    // Missing role_id
    let res = RoleBuilder::default()
        .with_display_name("No ID Role".into())
        .with_permissions(vec!["a".to_string(), "b".to_string()])
        .build();

    assert!(res.is_err());

    // Empty role_id
    let res = RoleBuilder::default()
        .with_role_id("".into())
        .with_display_name("Empty ID Role".into())
        .with_permissions(vec!["a".to_string(), "b".to_string()])
        .build();
    assert!(res.is_err());

    // No display name
    let res = RoleBuilder::default()
        .with_role_id("no_display_name".into())
        .with_permissions(vec!["a".to_string(), "b".to_string()])
        .build();
    assert!(res.is_err());

    // Empty display name
    RoleBuilder::default()
        .with_role_id("empty_display_name".into())
        .with_display_name("".into())
        .with_permissions(vec!["a".to_string(), "b".to_string()])
        .build()
        .expect("Could not build a role with an empty display name");

    // Empty permissions
    let res = RoleBuilder::default()
        .with_role_id("empty_permissions".into())
        .with_display_name("Empty Permissions".into())
        .with_permissions(vec![])
        .build();
    assert!(res.is_err());
}

/// Tests the role update builder in both Ok and Err scenarios
/// 1. Construct a valid update with all items
/// 2. Construct a valid update with no permission changes
/// 3. Construct a valid update with no display name changes
/// 4. Fail with no role_id
/// 5. Fail with empty permissions
#[test]
fn test_role_update_builder() {
    // Complete valid role update
    let role_update = RoleUpdateBuilder::default()
        .with_role_id("valid_role".into())
        .with_display_name(Some("Valid Role".into()))
        .with_permissions(Some(vec!["a".to_string(), "b".to_string()]))
        .build()
        .expect("could not build a valid role");

    assert_eq!("valid_role", &role_update.role_id);
    assert_eq!(Some("Valid Role"), role_update.display_name.as_deref());
    assert_eq!(
        Some(vec!["a".to_string(), "b".to_string()]),
        role_update.permissions
    );

    // Valid role update with no permission change
    let role_update = RoleUpdateBuilder::default()
        .with_role_id("valid_role".into())
        .with_display_name(Some("Valid Role".into()))
        .build()
        .expect("could not build a valid role");

    assert_eq!("valid_role", &role_update.role_id);
    assert_eq!(Some("Valid Role"), role_update.display_name.as_deref());
    assert_eq!(None, role_update.permissions);

    // Valid role update with no display name
    let role_update = RoleUpdateBuilder::default()
        .with_role_id("valid_role".into())
        .with_permissions(Some(vec!["a".to_string(), "b".to_string()]))
        .build()
        .expect("could not build a valid role");

    assert_eq!("valid_role", &role_update.role_id);
    assert_eq!(None, role_update.display_name);
    assert_eq!(
        Some(vec!["a".to_string(), "b".to_string()]),
        role_update.permissions
    );

    // Missing role_id
    let res = RoleUpdateBuilder::default()
        .with_display_name(Some("No ID Role".into()))
        .with_permissions(Some(vec!["a".to_string(), "b".to_string()]))
        .build();

    assert!(res.is_err());

    // Empty permissions
    let res = RoleUpdateBuilder::default()
        .with_role_id("missing_perms_update".into())
        .with_display_name(Some("Missing Permissions Update".into()))
        .with_permissions(Some(vec![]))
        .build();
    assert!(res.is_err());
}

#[test]
fn role_builder_reports_each_error() {
    let perms = || vec!["p".to_string()];
    assert_eq!(
        RoleBuilder::default()
            .with_role_id("r".into())
            .with_display_name("R".into())
            .build()
            .unwrap_err(),
        RoleBuildError::EmptyPermissions
    );
    assert_eq!(
        RoleBuilder::default().with_display_name("R".into()).with_permissions(perms()).build().unwrap_err(),
        RoleBuildError::MissingRoleId
    );
    assert_eq!(
        RoleBuilder::default()
            .with_role_id("".into())
            .with_display_name("R".into())
            .with_permissions(perms())
            .build()
            .unwrap_err(),
        RoleBuildError::BlankRoleId
    );
    assert_eq!(
        RoleBuilder::default().with_role_id("r".into()).with_permissions(perms()).build().unwrap_err(),
        RoleBuildError::MissingDisplayName
    );
    // Permissions are checked first.
    assert_eq!(RoleBuilder::default().build().unwrap_err(), RoleBuildError::EmptyPermissions);
}

#[test]
fn role_update_builder_reports_each_error() {
    assert_eq!(RoleUpdateBuilder::default().build().unwrap_err(), RoleBuildError::MissingRoleId);
    assert_eq!(
        RoleUpdateBuilder::default().with_role_id("".into()).build().unwrap_err(),
        RoleBuildError::BlankRoleId
    );
    assert_eq!(
        RoleUpdateBuilder::default()
            .with_role_id("r".into())
            .with_permissions(Some(vec![]))
            .build()
            .unwrap_err(),
        RoleBuildError::EmptyPermissions
    );
    let update = RoleUpdateBuilder::default().with_role_id("r".into()).build().unwrap();
    assert_eq!(update.display_name, None);
    assert_eq!(update.permissions, None);
}
