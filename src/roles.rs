//! Role records and their validated builders.
use vstd::prelude::*;

verus! {

/// Why a role or role update could not be built.
#[derive(Debug, Clone, Copy, PartialEq, Eq, Structural)]
pub enum RoleBuildError {
    MissingRoleId,
    BlankRoleId,
    MissingDisplayName,
    EmptyPermissions,
}

/// A role: an identifier, a display name and a non-empty list of permissions.
#[derive(Debug)]
pub struct Role {
    pub role_id: String,
    pub display_name: String,
    pub permissions: Vec<String>,
}

impl Role {
    /// A role is valid when its id is not blank and it grants at least one permission.
    pub open spec fn wf(&self) -> bool {
        &&& self.role_id@.len() > 0
        &&& self.permissions@.len() > 0
    }
}

/// Accumulates the fields of a `Role` and checks them all in `build`.
pub struct RoleBuilder {
    role_id: Option<String>,
    display_name: Option<String>,
    permissions: Vec<String>,
}

impl Default for RoleBuilder {
    fn default() -> (r: RoleBuilder)
        ensures
            r.role_id_spec().is_none(),
            r.display_name_spec().is_none(),
            r.permissions_spec().len() == 0,
    {
        RoleBuilder { role_id: None, display_name: None, permissions: Vec::new() }
    }
}

/// The error, if any, that building a role from these fields yields; checks run in the
/// order permissions, role id, display name.
pub open spec fn role_build_error(
    role_id: Option<Seq<char>>,
    display_name: Option<Seq<char>>,
    permissions: Seq<String>,
) -> Option<RoleBuildError> {
    if permissions.len() == 0 {
        Some(RoleBuildError::EmptyPermissions)
    } else if role_id.is_none() {
        Some(RoleBuildError::MissingRoleId)
    } else if role_id.unwrap().len() == 0 {
        Some(RoleBuildError::BlankRoleId)
    } else if display_name.is_none() {
        Some(RoleBuildError::MissingDisplayName)
    } else {
        None
    }
}

/// The error, if any, that building a role update from these fields yields.
pub open spec fn role_update_build_error(
    role_id: Option<Seq<char>>,
    permissions: Option<Seq<String>>,
) -> Option<RoleBuildError> {
    if role_id.is_none() {
        Some(RoleBuildError::MissingRoleId)
    } else if role_id.unwrap().len() == 0 {
        Some(RoleBuildError::BlankRoleId)
    } else if permissions.is_some() && permissions.unwrap().len() == 0 {
        Some(RoleBuildError::EmptyPermissions)
    } else {
        None
    }
}

pub open spec fn opt_string_view(s: Option<String>) -> Option<Seq<char>> {
    match s {
        Some(v) => Some(v@),
        None => None,
    }
}

pub open spec fn opt_vec_view(v: Option<Vec<String>>) -> Option<Seq<String>> {
    match v {
        Some(p) => Some(p@),
        None => None,
    }
}

impl RoleBuilder {
    pub closed spec fn role_id_spec(&self) -> Option<Seq<char>> {
        opt_string_view(self.role_id)
    }

    pub closed spec fn display_name_spec(&self) -> Option<Seq<char>> {
        opt_string_view(self.display_name)
    }

    pub closed spec fn permissions_spec(&self) -> Seq<String> {
        self.permissions@
    }

    /// Sets the role id of the resulting role; it must not be blank.
    pub fn with_role_id(self, role_id: String) -> (r: Self)
        ensures
            r.role_id_spec() == Some(role_id@),
            r.display_name_spec() == self.display_name_spec(),
            r.permissions_spec() == self.permissions_spec(),
    {
        Self { role_id: Some(role_id), ..self }
    }

    /// Sets the display name of the resulting role.
    pub fn with_display_name(self, display_name: String) -> (r: Self)
        ensures
            r.role_id_spec() == self.role_id_spec(),
            r.display_name_spec() == Some(display_name@),
            r.permissions_spec() == self.permissions_spec(),
    {
        Self { display_name: Some(display_name), ..self }
    }

    /// Sets the permissions of the resulting role; there must be at least one.
    pub fn with_permissions(self, permissions: Vec<String>) -> (r: Self)
        ensures
            r.role_id_spec() == self.role_id_spec(),
            r.display_name_spec() == self.display_name_spec(),
            r.permissions_spec() == permissions@,
    {
        Self { permissions, ..self }
    }

    /// Builds the role, or reports the first field that is missing or invalid.
    pub fn build(self) -> (r: Result<Role, RoleBuildError>)
        ensures
            role_build_error(self.role_id_spec(), self.display_name_spec(), self.permissions_spec())
                matches Some(e) ==> r == Err::<Role, RoleBuildError>(e),
            role_build_error(
                self.role_id_spec(),
                self.display_name_spec(),
                self.permissions_spec(),
            ).is_none() ==> r is Ok,
            r matches Ok(role) ==> {
                &&& role.wf()
                &&& Some(role.role_id@) == self.role_id_spec()
                &&& Some(role.display_name@) == self.display_name_spec()
                &&& role.permissions@ == self.permissions_spec()
            },
    {
        let RoleBuilder { role_id, display_name, permissions } = self;
        if permissions.len() == 0 {
            return Err(RoleBuildError::EmptyPermissions);
        }
        let role_id = match role_id {
            Some(id) => id,
            None => return Err(RoleBuildError::MissingRoleId),
        };
        if role_id.as_str().is_empty() {
            return Err(RoleBuildError::BlankRoleId);
        }
        let display_name = match display_name {
            Some(name) => name,
            None => return Err(RoleBuildError::MissingDisplayName),
        };
        Ok(Role { role_id, display_name, permissions })
    }
}

/// A change to an existing role: the fields left `None` stay as they are.
#[derive(Debug)]
pub struct RoleUpdate {
    pub role_id: String,
    pub display_name: Option<String>,
    pub permissions: Option<Vec<String>>,
}

/// Accumulates the fields of a `RoleUpdate` and checks them all in `build`.
pub struct RoleUpdateBuilder {
    role_id: Option<String>,
    display_name: Option<String>,
    permissions: Option<Vec<String>>,
}

impl Default for RoleUpdateBuilder {
    fn default() -> (r: RoleUpdateBuilder)
        ensures
            r.role_id_spec().is_none(),
            r.display_name_spec().is_none(),
            r.permissions_spec().is_none(),
    {
        RoleUpdateBuilder { role_id: None, display_name: None, permissions: None }
    }
}

impl RoleUpdateBuilder {
    pub closed spec fn role_id_spec(&self) -> Option<Seq<char>> {
        opt_string_view(self.role_id)
    }

    pub closed spec fn display_name_spec(&self) -> Option<Seq<char>> {
        opt_string_view(self.display_name)
    }

    pub closed spec fn permissions_spec(&self) -> Option<Seq<String>> {
        opt_vec_view(self.permissions)
    }

    /// Sets the id of the role to change; it must not be blank.
    pub fn with_role_id(self, role_id: String) -> (r: Self)
        ensures
            r.role_id_spec() == Some(role_id@),
            r.display_name_spec() == self.display_name_spec(),
            r.permissions_spec() == self.permissions_spec(),
    {
        Self { role_id: Some(role_id), ..self }
    }

    /// Sets the new display name, or `None` to keep the current one.
    pub fn with_display_name(self, display_name: Option<String>) -> (r: Self)
        ensures
            r.role_id_spec() == self.role_id_spec(),
            r.display_name_spec() == opt_string_view(display_name),
            r.permissions_spec() == self.permissions_spec(),
    {
        Self { display_name, ..self }
    }

    /// Sets the new permissions, or `None` to keep the current ones; a new list must not
    /// be empty.
    pub fn with_permissions(self, permissions: Option<Vec<String>>) -> (r: Self)
        ensures
            r.role_id_spec() == self.role_id_spec(),
            r.display_name_spec() == self.display_name_spec(),
            r.permissions_spec() == opt_vec_view(permissions),
    {
        Self { permissions, ..self }
    }

    /// Builds the update, or reports the first field that is missing or invalid.
    pub fn build(self) -> (r: Result<RoleUpdate, RoleBuildError>)
        ensures
            role_update_build_error(self.role_id_spec(), self.permissions_spec()) matches Some(e)
                ==> r == Err::<RoleUpdate, RoleBuildError>(e),
            role_update_build_error(self.role_id_spec(), self.permissions_spec()).is_none()
                ==> r is Ok,
            r matches Ok(u) ==> {
                &&& Some(u.role_id@) == self.role_id_spec()
                &&& opt_string_view(u.display_name) == self.display_name_spec()
                &&& opt_vec_view(u.permissions) == self.permissions_spec()
            },
    {
        let RoleUpdateBuilder { role_id, display_name, permissions } = self;
        let role_id = match role_id {
            Some(id) => id,
            None => return Err(RoleBuildError::MissingRoleId),
        };
        if role_id.as_str().is_empty() {
            return Err(RoleBuildError::BlankRoleId);
        }
        if let Some(p) = &permissions {
            if p.len() == 0 {
                return Err(RoleBuildError::EmptyPermissions);
            }
        }
        Ok(RoleUpdate { role_id, display_name, permissions })
    }
}

} // verus!
