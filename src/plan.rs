//! Deciding what a state migration between a relational database and LMDB moves: its
//! direction, and which services of which circuits.
use vstd::prelude::*;

verus! {

/// The lower-case form of a string.
pub uninterp spec fn lower_of(s: Seq<char>) -> Seq<char>;

/// Relies on `str::to_lowercase`: the result depends on the characters of `s` alone.
#[verifier::external_body]
fn lowercase(s: &str) -> (r: String)
    ensures
        r@ == lower_of(s@),
{
    s.to_lowercase()
}

/// Where a migration takes the state, and the database that holds the circuit information.
#[derive(Debug, PartialEq, Eq)]
pub enum MigrationDirection {
    /// From the database at `database_uri` into LMDB.
    ToLmdb { database_uri: String },
    /// From LMDB into the database at `database_uri`.
    FromLmdb { database_uri: String },
}

/// Why a pair of databases cannot be migrated between.
#[derive(Debug, Clone, Copy, PartialEq, Eq, Structural)]
pub enum DirectionError {
    /// Both sides are LMDB.
    LmdbToLmdb,
    /// Neither side is LMDB.
    NoLmdb,
}

/// A direction as (whether the state goes into LMDB, the other database's name).
pub open spec fn direction_view(r: Result<MigrationDirection, DirectionError>) -> Result<(bool, Seq<char>), DirectionError> {
    match r {
        Ok(MigrationDirection::ToLmdb { database_uri }) => Ok((true, database_uri@)),
        Ok(MigrationDirection::FromLmdb { database_uri }) => Ok((false, database_uri@)),
        Err(e) => Err(e),
    }
}

/// The direction owed for these names, given their lower-case forms.
pub open spec fn direction_spec(
    in_database: Seq<char>,
    out_database: Seq<char>,
    in_lower: Seq<char>,
    out_lower: Seq<char>,
) -> Result<(bool, Seq<char>), DirectionError> {
    if is_lmdb(in_lower) && is_lmdb(out_lower) {
        Err(DirectionError::LmdbToLmdb)
    } else if is_lmdb(out_lower) {
        Ok((true, in_database))
    } else if is_lmdb(in_lower) {
        Ok((false, out_database))
    } else {
        Err(DirectionError::NoLmdb)
    }
}

pub open spec fn is_lmdb(lowered: Seq<char>) -> bool {
    lowered == seq!['l', 'm', 'd', 'b']
}

fn names_lmdb(lowered: &String) -> (r: bool)
    ensures
        r == is_lmdb(lowered@),
{
    let lmdb = "lmdb".to_owned();
    proof {
        reveal_strlit("lmdb");
        assert("lmdb"@ =~= seq!['l', 'm', 'd', 'b']);
    }
    *lowered == lmdb
}

/// The direction of a migration from `in_database` to `out_database`, given both names
/// already in lower case (`in_lower`, `out_lower`): exactly one side must be LMDB, and the
/// other side's name, as given, is the database with the circuit information.
pub fn direction_of(in_database: &str, out_database: &str, in_lower: &String, out_lower: &String) -> (r: Result<
    MigrationDirection,
    DirectionError,
>)
    ensures
        direction_view(r) == direction_spec(in_database@, out_database@, in_lower@, out_lower@),
{
    let in_is = names_lmdb(in_lower);
    let out_is = names_lmdb(out_lower);
    if in_is && out_is {
        Err(DirectionError::LmdbToLmdb)
    } else if out_is {
        Ok(MigrationDirection::ToLmdb { database_uri: in_database.to_owned() })
    } else if in_is {
        Ok(MigrationDirection::FromLmdb { database_uri: out_database.to_owned() })
    } else {
        Err(DirectionError::NoLmdb)
    }
}

/// The direction of a migration from `in_database` to `out_database`; LMDB is recognised
/// whatever the case of its name.
pub fn migration_direction(in_database: &str, out_database: &str) -> (r: Result<
    MigrationDirection,
    DirectionError,
>)
    ensures
        direction_view(r) == direction_spec(
            in_database@,
            out_database@,
            lower_of(in_database@),
            lower_of(out_database@),
        ),
{
    let in_lower = lowercase(in_database);
    let out_lower = lowercase(out_database);
    direction_of(in_database, out_database, &in_lower, &out_lower)
}

/// One service in a circuit's roster.
#[derive(Debug)]
pub struct RosterService {
    pub service_id: String,
    pub service_type: String,
    pub node_id: String,
}

/// A circuit and the services it runs.
#[derive(Debug)]
pub struct CircuitRoster {
    pub circuit_id: String,
    pub roster: Vec<RosterService>,
}

/// The service type whose state is migrated.
pub open spec fn scabbard_type() -> Seq<char> {
    seq!['s', 'c', 'a', 'b', 'b', 'a', 'r', 'd']
}

/// Whether the service runs on `node_id` and keeps scabbard state.
pub open spec fn is_local_scabbard(s: RosterService, node_id: Seq<char>) -> bool {
    s.node_id@ == node_id && s.service_type@ == scabbard_type()
}

/// The (circuit id, service id) pairs of `circuits[..n]` that `local_services` lists, in order.
pub open spec fn local_pairs(circuits: Seq<CircuitRoster>, node_id: Seq<char>, n: int) -> Seq<(Seq<char>, Seq<char>)>
    decreases n,
{
    if n <= 0 {
        Seq::empty()
    } else {
        local_pairs(circuits, node_id, n - 1) + local_pairs_of(circuits[n - 1], node_id, circuits[n - 1].roster@.len() as int)
    }
}

/// The pairs that one circuit contributes, from the first `m` services of its roster.
pub open spec fn local_pairs_of(c: CircuitRoster, node_id: Seq<char>, m: int) -> Seq<(Seq<char>, Seq<char>)>
    decreases m,
{
    if m <= 0 {
        Seq::empty()
    } else {
        let rest = local_pairs_of(c, node_id, m - 1);
        if is_local_scabbard(c.roster@[m - 1], node_id) {
            rest.push((c.circuit_id@, c.roster@[m - 1].service_id@))
        } else {
            rest
        }
    }
}

pub open spec fn pairs_view(v: Seq<(String, String)>) -> Seq<(Seq<char>, Seq<char>)> {
    Seq::new(v.len(), |i: int| (v[i].0@, v[i].1@))
}

/// The scabbard services that run on `node_id`, as (circuit id, service id) pairs, circuit by
/// circuit in roster order.
pub fn local_services(circuits: &Vec<CircuitRoster>, node_id: &String) -> (r: Vec<(String, String)>)
    ensures
        pairs_view(r@) == local_pairs(circuits@, node_id@, circuits@.len() as int),
{
    let scabbard = "scabbard".to_owned();
    proof {
        reveal_strlit("scabbard");
        assert("scabbard"@ =~= scabbard_type());
    }
    let mut out: Vec<(String, String)> = Vec::new();
    let mut i: usize = 0;
    while i < circuits.len()
        invariant
            i <= circuits@.len(),
            scabbard@ == scabbard_type(),
            pairs_view(out@) == local_pairs(circuits@, node_id@, i as int),
        decreases circuits@.len() - i,
    {
        let c = &circuits[i];
        let ghost base = pairs_view(out@);
        let mut j: usize = 0;
        while j < c.roster.len()
            invariant
                j <= c.roster@.len(),
                scabbard@ == scabbard_type(),
                pairs_view(out@) == base + local_pairs_of(*c, node_id@, j as int),
            decreases c.roster@.len() - j,
        {
            let s = &c.roster[j];
            let ghost prev = pairs_view(out@);
            if s.node_id == *node_id && s.service_type == scabbard {
                out.push((c.circuit_id.clone(), s.service_id.clone()));
                assert(pairs_view(out@) =~= prev.push((c.circuit_id@, s.service_id@)));
            }
            j = j + 1;
            proof {
                let r = local_pairs_of(*c, node_id@, j as int);
                assert(pairs_view(out@) =~= base + r);
            }
        }
        i = i + 1;
    }
    out
}

/// What a migration moves: its direction, and the (circuit id, service id) pairs to migrate.
#[derive(Debug, PartialEq, Eq)]
pub struct MigrationPlan {
    pub direction: MigrationDirection,
    pub services: Vec<(String, String)>,
}

/// The pairs a node migrates: none when it has no node id, else its local scabbard services.
pub open spec fn planned_pairs(node_id: Option<String>, circuits: Seq<CircuitRoster>) -> Seq<(Seq<char>, Seq<char>)> {
    match node_id {
        None => Seq::empty(),
        Some(n) => local_pairs(circuits, n@, circuits.len() as int),
    }
}

/// Plans a migration from `in_database` to `out_database`: first the direction is checked,
/// then the services are chosen. A node without an id, or without circuits, has nothing to
/// migrate.
pub fn plan_migration(
    in_database: &str,
    out_database: &str,
    node_id: &Option<String>,
    circuits: &Vec<CircuitRoster>,
) -> (r: Result<MigrationPlan, DirectionError>)
    ensures
        direction_spec(in_database@, out_database@, lower_of(in_database@), lower_of(out_database@))
            is Ok <==> r is Ok,
        r matches Err(e) ==> direction_spec(
            in_database@,
            out_database@,
            lower_of(in_database@),
            lower_of(out_database@),
        ) == Err::<(bool, Seq<char>), DirectionError>(e),
        r matches Ok(plan) ==> {
            &&& direction_view(Ok(plan.direction)) == direction_spec(
                in_database@,
                out_database@,
                lower_of(in_database@),
                lower_of(out_database@),
            )
            &&& pairs_view(plan.services@) == planned_pairs(*node_id, circuits@)
        },
{
    let direction = match migration_direction(in_database, out_database) {
        Ok(d) => d,
        Err(e) => return Err(e),
    };
    let services = match node_id {
        Some(n) => local_services(circuits, n),
        None => {
            let v: Vec<(String, String)> = Vec::new();
            assert(pairs_view(v@) =~= Seq::<(Seq<char>, Seq<char>)>::empty());
            v
        },
    };
    Ok(MigrationPlan { direction, services })
}

} // verus!
