//! API-key authorization with a hierarchy of roles.

use vstd::prelude::*;
use crate::strings::{str_eq, to_string};

verus! {

/// Access roles, from least to most privileged.
#[derive(Debug, Clone, Copy, PartialEq, Eq, PartialOrd, Ord, Structural)]
pub enum Role {
    ReadOnly,
    Write,
    Admin,
}

/// The rank of a role: `ReadOnly` 1, `Write` 2, `Admin` 3.
pub open spec fn role_rank(r: Role) -> int {
    match r {
        Role::ReadOnly => 1,
        Role::Write => 2,
        Role::Admin => 3,
    }
}

/// The name of a role as `{:?}` prints it.
pub open spec fn role_name(r: Role) -> Seq<char> {
    match r {
        Role::ReadOnly => "ReadOnly"@,
        Role::Write => "Write"@,
        Role::Admin => "Admin"@,
    }
}

impl Role {
    /// The rank of the role: `ReadOnly` 1, `Write` 2, `Admin` 3.
    pub fn rank(&self) -> (n: u8)
        ensures
            n == role_rank(*self),
    {
        match self {
            Role::ReadOnly => 1,
            Role::Write => 2,
            Role::Admin => 3,
        }
    }

    /// Whether this role has at least the privileges of `required`.
    pub fn covers(&self, required: Role) -> (b: bool)
        ensures
            b == (role_rank(*self) >= role_rank(required)),
    {
        self.rank() >= required.rank()
    }
}

/// A key and the role it grants.
#[derive(Debug, Clone)]
pub struct ApiKeyInfo {
    pub key: String,
    pub role: Role,
}

/// Where the keys are persisted.
pub struct AuthManager {
    keys_file: &'static str,
}

/// The message of a refusal for insufficient privileges.
pub open spec fn forbidden_message(required: Role) -> Seq<char> {
    "Forbidden: Insufficient privileges. Required role: "@ + role_name(required)
}

/// The message of a refusal for an unknown key.
pub open spec fn unauthorized_message() -> Seq<char> {
    "Unauthorized: Invalid API Key"@
}

/// The role of the first entry for `key`, if any.
pub open spec fn role_of_key(keys: Seq<(Seq<char>, Role)>, key: Seq<char>) -> Option<Role>
    decreases keys.len(),
{
    if keys.len() == 0 {
        None
    } else if keys[0].0 == key {
        Some(keys[0].1)
    } else {
        role_of_key(keys.drop_first(), key)
    }
}

/// The key table as (key, role) pairs.
pub open spec fn key_views(keys: Seq<ApiKeyInfo>) -> Seq<(Seq<char>, Role)> {
    keys.map_values(|k: ApiKeyInfo| (k.key@, k.role))
}

/// No key occurs twice in the table. The key store maps each key to one
/// role, so a table read from it has this property.
pub open spec fn keys_unique(keys: Seq<(Seq<char>, Role)>) -> bool {
    forall|i: int, j: int| 0 <= i < keys.len() && 0 <= j < keys.len() && i != j ==> (#[trigger] keys[i]).0 != (#[trigger] keys[j]).0
}

/// Law: in a table where no key occurs twice, a key's role is the role of
/// the entry that holds it, wherever that entry stands.
pub proof fn lemma_unique_key_role(keys: Seq<(Seq<char>, Role)>, i: int)
    requires
        keys_unique(keys),
        0 <= i < keys.len(),
    ensures
        role_of_key(keys, keys[i].0) == Some(keys[i].1),
    decreases keys.len(),
{
    if i > 0 {
        assert(keys[0].0 != keys[i].0);
        let rest = keys.drop_first();
        assert forall|a: int, b: int| 0 <= a < rest.len() && 0 <= b < rest.len() && a != b implies
            (#[trigger] rest[a]).0 != (#[trigger] rest[b]).0 by {
            assert(rest[a] == keys[a + 1] && rest[b] == keys[b + 1]);
        };
        assert(rest[i - 1] == keys[i]);
        lemma_unique_key_role(rest, i - 1);
    }
}

/// The keys written when none are stored yet.
pub open spec fn spec_default_keys() -> Seq<(Seq<char>, Role)> {
    seq![("admin_key"@, Role::Admin), ("write_key"@, Role::Write), ("read_key"@, Role::ReadOnly)]
}

/// `key` is granted `required` by the key table.
pub open spec fn grants(keys: Seq<(Seq<char>, Role)>, key: Seq<char>, required: Role) -> bool {
    match role_of_key(keys, key) {
        Some(role) => role_rank(role) >= role_rank(required),
        None => false,
    }
}

/// The roles form a hierarchy: a key granted a role is granted every role
/// below it, and an unknown key is granted none.
pub proof fn lemma_grants_downward(keys: Seq<(Seq<char>, Role)>, key: Seq<char>, high: Role, low: Role)
    requires
        role_rank(low) <= role_rank(high),
    ensures
        grants(keys, key, high) ==> grants(keys, key, low),
        role_of_key(keys, key) is None ==> !grants(keys, key, low),
{
}

/// Law: the roles are ordered ReadOnly < Write < Admin. A role covers
/// `required` exactly when it is `required` or above it: everything covers
/// ReadOnly, Write and Admin cover Write, only Admin covers Admin. So a
/// known key is always granted ReadOnly, a ReadOnly key is never granted
/// Write, and only an Admin key is granted Admin.
pub proof fn lemma_role_order(keys: Seq<(Seq<char>, Role)>, key: Seq<char>, role: Role)
    ensures
        role_rank(Role::ReadOnly) < role_rank(Role::Write),
        role_rank(Role::Write) < role_rank(Role::Admin),
        role_rank(role) >= role_rank(Role::ReadOnly),
        role_rank(role) >= role_rank(Role::Write) <==> (role == Role::Write || role == Role::Admin),
        role_rank(role) >= role_rank(Role::Admin) <==> role == Role::Admin,
        grants(keys, key, Role::ReadOnly) <==> role_of_key(keys, key) is Some,
        grants(keys, key, Role::Write) <==> (role_of_key(keys, key) == Some(Role::Write) || role_of_key(keys, key) == Some(Role::Admin)),
        grants(keys, key, Role::Admin) <==> role_of_key(keys, key) == Some(Role::Admin),
{
}

fn key_info(key: &str, role: Role) -> (k: ApiKeyInfo)
    ensures
        k.key@ == key@,
        k.role == role,
{
    ApiKeyInfo { key: to_string(key), role }
}

impl AuthManager {
    /// A manager over the key store `storage/keys.json`.
    pub fn new() -> (m: Self)
        ensures
            m.keys_file()@ == "storage/keys.json"@,
    {
        AuthManager { keys_file: "storage/keys.json" }
    }

    pub closed spec fn keys_file(&self) -> &'static str {
        self.keys_file
    }

    /// The path of the key store.
    pub fn keys_path(&self) -> (p: &'static str)
        ensures
            p == self.keys_file(),
    {
        self.keys_file
    }

    /// The keys to store when none are stored yet: one key per role.
    pub fn default_keys() -> (v: Vec<ApiKeyInfo>)
        ensures
            key_views(v@) == spec_default_keys(),
            keys_unique(key_views(v@)),
    {
        let mut v = Vec::new();
        v.push(key_info("admin_key", Role::Admin));
        v.push(key_info("write_key", Role::Write));
        v.push(key_info("read_key", Role::ReadOnly));
        assert(key_views(v@) =~= spec_default_keys());
        proof {
            reveal_strlit("admin_key");
            reveal_strlit("write_key");
            reveal_strlit("read_key");
            let k = key_views(v@);
            assert(k[0].0[0] != k[1].0[0] && k[0].0[0] != k[2].0[0] && k[1].0[0] != k[2].0[0]);
        }
        v
    }

    /// Checks that `key` is stored in `keys` with a role that covers
    /// `required`: the key and its role come back, or a refusal message
    /// (`Forbidden: …` for a known key of too low a role, `Unauthorized: …`
    /// for an unknown key).
    pub fn authorize(&self, keys: &Vec<ApiKeyInfo>, key: &str, required: Role) -> (r: Result<ApiKeyInfo, String>)
        ensures
            match role_of_key(key_views(keys@), key@) {
                Some(role) => if role_rank(role) >= role_rank(required) {
                    r matches Ok(info) && info.key@ == key@ && info.role == role
                } else {
                    r matches Err(msg) && msg@ == forbidden_message(required)
                },
                None => r matches Err(msg) && msg@ == unauthorized_message(),
            },
            r matches Ok(info) ==> role_of_key(key_views(keys@), key@) == Some(info.role),
            required == Role::Admin ==> (r matches Ok(info) ==> info.role == Role::Admin),
            required == Role::Write ==> (r matches Ok(info) ==> info.role != Role::ReadOnly),
            role_of_key(key_views(keys@), key@) == Some(Role::Admin) ==> r is Ok,
            role_of_key(key_views(keys@), key@) is Some && required == Role::ReadOnly ==> r is Ok,
    {
        let n = keys.len();
        let mut i: usize = 0;
        assert(key_views(keys@).skip(0) =~= key_views(keys@));
        while i < n
            invariant
                n == keys@.len(),
                i <= n,
                role_of_key(key_views(keys@), key@) == role_of_key(key_views(keys@).skip(i as int), key@),
            decreases n - i,
        {
            let ghost rest = key_views(keys@).skip(i as int);
            assert(rest[0] == (keys@[i as int].key@, keys@[i as int].role));
            assert(rest.drop_first() =~= key_views(keys@).skip(i + 1));
            if str_eq(keys[i].key.as_str(), key) {
                let role = keys[i].role;
                if role.covers(required) {
                    return Ok(key_info(key, role));
                } else {
                    let mut msg = to_string("Forbidden: Insufficient privileges. Required role: ");
                    match required {
                        Role::ReadOnly => msg.append("ReadOnly"),
                        Role::Write => msg.append("Write"),
                        Role::Admin => msg.append("Admin"),
                    }
                    return Err(msg);
                }
            }
            i = i + 1;
        }
        assert(key_views(keys@).skip(n as int) =~= Seq::<(Seq<char>, Role)>::empty());
        Err(to_string("Unauthorized: Invalid API Key"))
    }
}

/// The token of an `Authorization` header value of the form `Bearer <token>`.
pub open spec fn spec_bearer_token(header: Seq<char>) -> Option<Seq<char>> {
    if header.len() >= 7 && header.take(7) == "Bearer "@ {
        Some(header.skip(7))
    } else {
        None
    }
}

/// Extracts the token of an `Authorization` header value `Bearer <token>`.
pub fn bearer_token(header: &str) -> (r: Option<String>)
    ensures
        match r {
            Some(t) => spec_bearer_token(header@) == Some(t@),
            None => spec_bearer_token(header@) is None,
        },
{
    let prefix = "Bearer ";
    proof { reveal_strlit("Bearer "); }
    let n = header.unicode_len();
    if n < 7 {
        return None;
    }
    let head = header.substring_char(0, 7);
    if !str_eq(head, prefix) {
        return None;
    }
    let tail = header.substring_char(7, n);
    assert(header@.subrange(0, 7) =~= header@.take(7));
    assert(header@.subrange(7, n as int) =~= header@.skip(7));
    Some(to_string(tail))
}

/// The HTTP status of a refused request: 403 for a `Forbidden` refusal,
/// 401 for any other.
pub fn rejection_status(err: &str) -> (code: u16)
    ensures
        code == (if 9 <= err@.len() && err@.subrange(0, 9) == "Forbidden"@ { 403u16 } else { 401u16 }),
{
    proof { reveal_strlit("Forbidden"); }
    let n = err.unicode_len();
    if n >= 9 && str_eq(err.substring_char(0, 9), "Forbidden") {
        403
    } else {
        401
    }
}

/// Extractor payload: a caller with at least read-only access.
pub struct RequireReadOnly(pub ApiKeyInfo);

/// Extractor payload: a caller with at least write access.
pub struct RequireWrite(pub ApiKeyInfo);

/// Extractor payload: a caller with admin access.
pub struct RequireAdmin(pub ApiKeyInfo);

} // verus!
