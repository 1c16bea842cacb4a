//! The credential record: what it holds, when two records are the same, which
//! of two comes first, and the document that a record is written as.

use crate::map::SortedMap;
use crate::sorted::Keyed;
use crate::text::{
    lemma_opt_lt_connected, lemma_opt_lt_irreflexive, lemma_opt_lt_transitive, opt_clone,
    opt_less, opt_lt, opt_same, opt_str, opt_view,
};
use vstd::prelude::*;
use core::cmp::Ordering;
use vstd::std_specs::cmp::PartialEqSpecImpl;
use vstd::std_specs::cmp::PartialOrdSpecImpl;
use vstd::string::*;

verus! {

/// What a credential record holds: each field is a string or absent.
pub struct AuthConfigView {
    pub username: Option<Seq<char>>,
    pub password: Option<Seq<char>>,
    pub auth: Option<Seq<char>>,
    pub email: Option<Seq<char>>,
    pub serveraddress: Option<Seq<char>>,
    pub identitytoken: Option<Seq<char>>,
    pub registrytoken: Option<Seq<char>>,
}

/// The order on records: field by field, in the order of their declaration;
/// the first field that differs decides, and an absent field comes before a
/// present one.
pub open spec fn record_lt(a: AuthConfigView, b: AuthConfigView) -> bool {
    if a.username != b.username {
        opt_lt(a.username, b.username)
    } else if a.password != b.password {
        opt_lt(a.password, b.password)
    } else if a.auth != b.auth {
        opt_lt(a.auth, b.auth)
    } else if a.email != b.email {
        opt_lt(a.email, b.email)
    } else if a.serveraddress != b.serveraddress {
        opt_lt(a.serveraddress, b.serveraddress)
    } else if a.identitytoken != b.identitytoken {
        opt_lt(a.identitytoken, b.identitytoken)
    } else {
        opt_lt(a.registrytoken, b.registrytoken)
    }
}

/// No record comes before itself.
pub proof fn lemma_record_lt_irreflexive(a: AuthConfigView)
    ensures
        !record_lt(a, a),
{
    lemma_opt_lt_irreflexive(a.registrytoken);
}

/// The order on records is transitive.
pub proof fn lemma_record_lt_transitive(a: AuthConfigView, b: AuthConfigView, c: AuthConfigView)
    requires
        record_lt(a, b),
        record_lt(b, c),
    ensures
        record_lt(a, c),
{
    lemma_opt_chain(a.username, b.username, c.username);
    lemma_opt_chain(a.password, b.password, c.password);
    lemma_opt_chain(a.auth, b.auth, c.auth);
    lemma_opt_chain(a.email, b.email, c.email);
    lemma_opt_chain(a.serveraddress, b.serveraddress, c.serveraddress);
    lemma_opt_chain(a.identitytoken, b.identitytoken, c.identitytoken);
    lemma_opt_chain(a.registrytoken, b.registrytoken, c.registrytoken);
}

/// Two different records are ordered one way or the other.
pub proof fn lemma_record_lt_connected(a: AuthConfigView, b: AuthConfigView)
    ensures
        a == b || record_lt(a, b) || record_lt(b, a),
{
    lemma_opt_lt_connected(a.username, b.username);
    lemma_opt_lt_connected(a.password, b.password);
    lemma_opt_lt_connected(a.auth, b.auth);
    lemma_opt_lt_connected(a.email, b.email);
    lemma_opt_lt_connected(a.serveraddress, b.serveraddress);
    lemma_opt_lt_connected(a.identitytoken, b.identitytoken);
    lemma_opt_lt_connected(a.registrytoken, b.registrytoken);
}

/// What two steps upward in one field amount to.
proof fn lemma_opt_chain(a: Option<Seq<char>>, b: Option<Seq<char>>, c: Option<Seq<char>>)
    ensures
        opt_lt(a, b) && opt_lt(b, c) ==> opt_lt(a, c) && a != c,
        opt_lt(a, b) ==> a != b,
{
    lemma_opt_lt_irreflexive(a);
    if opt_lt(a, b) && opt_lt(b, c) {
        lemma_opt_lt_transitive(a, b, c);
    }
}

/// One set of credentials for a registry. Every field is optional. A record
/// is never changed once it is made, only replaced by another.
#[derive(Debug, Ord)]
pub struct AuthConfig {
    username: Option<String>,
    password: Option<String>,
    auth: Option<String>,
    email: Option<String>,
    serveraddress: Option<String>,
    identitytoken: Option<String>,
    registrytoken: Option<String>,
}

impl View for AuthConfig {
    type V = AuthConfigView;

    closed spec fn view(&self) -> AuthConfigView {
        AuthConfigView {
            username: opt_view(self.username),
            password: opt_view(self.password),
            auth: opt_view(self.auth),
            email: opt_view(self.email),
            serveraddress: opt_view(self.serveraddress),
            identitytoken: opt_view(self.identitytoken),
            registrytoken: opt_view(self.registrytoken),
        }
    }
}

impl AuthConfig {
    /// A record with the given fields.
    pub fn new(
        username: Option<String>,
        password: Option<String>,
        auth: Option<String>,
        email: Option<String>,
        serveraddress: Option<String>,
        identitytoken: Option<String>,
        registrytoken: Option<String>,
    ) -> (r: Self)
        ensures
            r@ == (AuthConfigView {
                username: opt_view(username),
                password: opt_view(password),
                auth: opt_view(auth),
                email: opt_view(email),
                serveraddress: opt_view(serveraddress),
                identitytoken: opt_view(identitytoken),
                registrytoken: opt_view(registrytoken),
            }),
    {
        AuthConfig { username, password, auth, email, serveraddress, identitytoken, registrytoken }
    }

    /// The token of the record: by convention the base64 form of
    /// `username:password`.
    pub fn auth(&self) -> (r: Option<&str>)
        ensures
            match r {
                Some(s) => self@.auth == Some(s@),
                None => self@.auth is None,
            },
    {
        opt_str(&self.auth)
    }

    /// The name of the user, where the record holds it apart from the token.
    pub fn username(&self) -> (r: Option<&str>)
        ensures
            match r {
                Some(s) => self@.username == Some(s@),
                None => self@.username is None,
            },
    {
        opt_str(&self.username)
    }

    /// The password, where the record holds it apart from the token.
    pub fn password(&self) -> (r: Option<&str>)
        ensures
            match r {
                Some(s) => self@.password == Some(s@),
                None => self@.password is None,
            },
    {
        opt_str(&self.password)
    }

    /// The e-mail address of the user.
    pub fn email(&self) -> (r: Option<&str>)
        ensures
            match r {
                Some(s) => self@.email == Some(s@),
                None => self@.email is None,
            },
    {
        opt_str(&self.email)
    }

    /// The address of the registry, as the record holds it.
    pub fn serveraddress(&self) -> (r: Option<&str>)
        ensures
            match r {
                Some(s) => self@.serveraddress == Some(s@),
                None => self@.serveraddress is None,
            },
    {
        opt_str(&self.serveraddress)
    }

    /// The token by which the user is known to the registry.
    pub fn identitytoken(&self) -> (r: Option<&str>)
        ensures
            match r {
                Some(s) => self@.identitytoken == Some(s@),
                None => self@.identitytoken is None,
            },
    {
        opt_str(&self.identitytoken)
    }

    /// The bearer token for the registry.
    pub fn registrytoken(&self) -> (r: Option<&str>)
        ensures
            match r {
                Some(s) => self@.registrytoken == Some(s@),
                None => self@.registrytoken is None,
            },
    {
        opt_str(&self.registrytoken)
    }
}

/// What a document holds under `name`.
fn document_field(doc: &SortedMap<String>, name: &str) -> (r: Option<String>)
    ensures
        opt_view(r) == field_of(string_views(doc@), name@),
{
    match doc.get(name) {
        Some(v) => Some(v.clone()),
        None => None,
    }
}

/// Puts a field into a document, where the field is present.
fn put_field(doc: &mut SortedMap<String>, name: &str, value: &Option<String>)
    ensures
        string_views(final(doc)@) == with_field(string_views(old(doc)@), name@, opt_view(*value)),
{
    match value {
        Some(v) => {
            doc.insert(name.to_owned(), v.clone());
            assert(string_views(doc@) =~= string_views(old(doc)@).insert(name@, v@));
        },
        None => {},
    }
}

impl AuthConfig {
    /// The document of the record: each present field under its name, absent
    /// fields left out.
    pub fn to_document(&self) -> (doc: SortedMap<String>)
        ensures
            string_views(doc@) == record_document(self@),
    {
        let mut doc: SortedMap<String> = SortedMap::new();
        assert(string_views(doc@) =~= Map::<Seq<char>, Seq<char>>::empty());
        put_field(&mut doc, "username", &self.username);
        put_field(&mut doc, "password", &self.password);
        put_field(&mut doc, "auth", &self.auth);
        put_field(&mut doc, "email", &self.email);
        put_field(&mut doc, "serveraddress", &self.serveraddress);
        put_field(&mut doc, "identitytoken", &self.identitytoken);
        put_field(&mut doc, "registrytoken", &self.registrytoken);
        doc
    }

    /// The record of a document: each field is what the document holds under
    /// its name, and absent where the document has no such name.
    pub fn from_document(doc: &SortedMap<String>) -> (r: Self)
        ensures
            r@ == document_record(string_views(doc@)),
    {
        AuthConfig {
            username: document_field(doc, "username"),
            password: document_field(doc, "password"),
            auth: document_field(doc, "auth"),
            email: document_field(doc, "email"),
            serveraddress: document_field(doc, "serveraddress"),
            identitytoken: document_field(doc, "identitytoken"),
            registrytoken: document_field(doc, "registrytoken"),
        }
    }
}

impl Clone for AuthConfig {
    fn clone(&self) -> (r: Self)
        ensures
            r@ == self@,
    {
        AuthConfig {
            username: opt_clone(&self.username),
            password: opt_clone(&self.password),
            auth: opt_clone(&self.auth),
            email: opt_clone(&self.email),
            serveraddress: opt_clone(&self.serveraddress),
            identitytoken: opt_clone(&self.identitytoken),
            registrytoken: opt_clone(&self.registrytoken),
        }
    }
}

impl PartialEqSpecImpl for AuthConfig {
    open spec fn obeys_eq_spec() -> bool {
        true
    }

    open spec fn eq_spec(&self, other: &Self) -> bool {
        self@ == other@
    }
}

impl AuthConfig {
    /// Whether every field of this record matches that of the other.
    pub fn same(&self, other: &Self) -> (r: bool)
        ensures
            r == (self@ == other@),
    {
        opt_same(&self.username, &other.username) && opt_same(&self.password, &other.password)
            && opt_same(&self.auth, &other.auth) && opt_same(&self.email, &other.email)
            && opt_same(&self.serveraddress, &other.serveraddress) && opt_same(
            &self.identitytoken,
            &other.identitytoken,
        ) && opt_same(&self.registrytoken, &other.registrytoken)
    }
}

impl PartialEq for AuthConfig {
    /// Two records are the same credential when every field matches.
    fn eq(&self, other: &Self) -> (r: bool) {
        self.same(other)
    }
}

impl PartialOrd for AuthConfig {
    /// Records are ordered field by field; any two records compare.
    fn partial_cmp(&self, other: &Self) -> (r: Option<Ordering>) {
        if self.same(other) {
            Some(Ordering::Equal)
        } else if self.precedes(other) {
            Some(Ordering::Less)
        } else {
            Some(Ordering::Greater)
        }
    }
}

impl PartialOrdSpecImpl for AuthConfig {
    open spec fn obeys_partial_cmp_spec() -> bool {
        true
    }

    open spec fn partial_cmp_spec(&self, other: &Self) -> Option<Ordering> {
        if self@ == other@ {
            Some(Ordering::Equal)
        } else if record_lt(self@, other@) {
            Some(Ordering::Less)
        } else {
            Some(Ordering::Greater)
        }
    }
}

impl Eq for AuthConfig {

}

impl Keyed for AuthConfig {
    type Key = AuthConfigView;

    open spec fn key(&self) -> AuthConfigView {
        self@
    }

    open spec fn key_lt(a: AuthConfigView, b: AuthConfigView) -> bool {
        record_lt(a, b)
    }

    proof fn lemma_key_lt_irreflexive(a: AuthConfigView) {
        lemma_record_lt_irreflexive(a);
    }

    proof fn lemma_key_lt_transitive(a: AuthConfigView, b: AuthConfigView, c: AuthConfigView) {
        lemma_record_lt_transitive(a, b, c);
    }

    proof fn lemma_key_lt_connected(a: AuthConfigView, b: AuthConfigView) {
        lemma_record_lt_connected(a, b);
    }

    fn precedes(&self, other: &Self) -> (r: bool) {
        if !opt_same(&self.username, &other.username) {
            opt_less(&self.username, &other.username)
        } else if !opt_same(&self.password, &other.password) {
            opt_less(&self.password, &other.password)
        } else if !opt_same(&self.auth, &other.auth) {
            opt_less(&self.auth, &other.auth)
        } else if !opt_same(&self.email, &other.email) {
            opt_less(&self.email, &other.email)
        } else if !opt_same(&self.serveraddress, &other.serveraddress) {
            opt_less(&self.serveraddress, &other.serveraddress)
        } else if !opt_same(&self.identitytoken, &other.identitytoken) {
            opt_less(&self.identitytoken, &other.identitytoken)
        } else {
            opt_less(&self.registrytoken, &other.registrytoken)
        }
    }

    fn same_key(&self, other: &Self) -> (r: bool) {
        self.same(other)
    }
}

/// The views of the strings of a map.
pub open spec fn string_views(m: Map<Seq<char>, String>) -> Map<Seq<char>, Seq<char>> {
    m.map_values(|s: String| s@)
}

/// The document with one more field, where the field is present.
pub open spec fn with_field(
    doc: Map<Seq<char>, Seq<char>>,
    name: Seq<char>,
    value: Option<Seq<char>>,
) -> Map<Seq<char>, Seq<char>> {
    match value {
        Some(v) => doc.insert(name, v),
        None => doc,
    }
}

/// What a document holds under a name.
pub open spec fn field_of(doc: Map<Seq<char>, Seq<char>>, name: Seq<char>) -> Option<Seq<char>> {
    if doc.contains_key(name) {
        Some(doc[name])
    } else {
        None
    }
}

/// The document of a record: each present field under its name. An absent
/// field is left out; it is not written as an empty value.
pub open spec fn record_document(r: AuthConfigView) -> Map<Seq<char>, Seq<char>> {
    with_field(
        with_field(
            with_field(
                with_field(
                    with_field(
                        with_field(
                            with_field(Map::empty(), "username"@, r.username),
                            "password"@,
                            r.password,
                        ),
                        "auth"@,
                        r.auth,
                    ),
                    "email"@,
                    r.email,
                ),
                "serveraddress"@,
                r.serveraddress,
            ),
            "identitytoken"@,
            r.identitytoken,
        ),
        "registrytoken"@,
        r.registrytoken,
    )
}

/// The record of a document: each field is what the document holds under the
/// name of the field. Other names are not looked at.
pub open spec fn document_record(doc: Map<Seq<char>, Seq<char>>) -> AuthConfigView {
    AuthConfigView {
        username: field_of(doc, "username"@),
        password: field_of(doc, "password"@),
        auth: field_of(doc, "auth"@),
        email: field_of(doc, "email"@),
        serveraddress: field_of(doc, "serveraddress"@),
        identitytoken: field_of(doc, "identitytoken"@),
        registrytoken: field_of(doc, "registrytoken"@),
    }
}

/// `name` is the name of a field of a record.
pub open spec fn is_field_name(name: Seq<char>) -> bool {
    name == "username"@ || name == "password"@ || name == "auth"@ || name == "email"@ || name
        == "serveraddress"@ || name == "identitytoken"@ || name == "registrytoken"@
}

/// The names of the fields are seven different names.
proof fn lemma_field_names_differ()
    ensures
        "username"@ != "password"@,
        "username"@.len() == 8,
        "password"@.len() == 8,
        "auth"@.len() == 4,
        "email"@.len() == 5,
        "serveraddress"@.len() == 13,
        "identitytoken"@.len() == 13,
        "registrytoken"@.len() == 13,
        "serveraddress"@ != "identitytoken"@,
        "serveraddress"@ != "registrytoken"@,
        "identitytoken"@ != "registrytoken"@,
{
    reveal_strlit("username");
    reveal_strlit("password");
    reveal_strlit("auth");
    reveal_strlit("email");
    reveal_strlit("serveraddress");
    reveal_strlit("identitytoken");
    reveal_strlit("registrytoken");
    assert("username"@[0] != "password"@[0]);
    assert("serveraddress"@[0] != "identitytoken"@[0]);
    assert("serveraddress"@[0] != "registrytoken"@[0]);
    assert("identitytoken"@[0] != "registrytoken"@[0]);
}

/// Reading the document of a record gives the record back.
pub proof fn lemma_record_round_trip(r: AuthConfigView)
    ensures
        document_record(record_document(r)) == r,
        forall|name: Seq<char>| #[trigger]
            record_document(r).contains_key(name) ==> is_field_name(name),
{
    lemma_field_names_differ();
}

/// Writing the record of a document gives the document back, where the
/// document holds nothing but fields of a record. So a document with only
/// some of the fields comes back with those fields and no others.
pub proof fn lemma_document_round_trip(doc: Map<Seq<char>, Seq<char>>)
    requires
        forall|name: Seq<char>| #[trigger] doc.contains_key(name) ==> is_field_name(name),
    ensures
        record_document(document_record(doc)) == doc,
{
    lemma_field_names_differ();
    assert(record_document(document_record(doc)) =~= doc);
}

} // verus!
