//! The index of the vault: for each registry the users that the vault knows
//! for it, and which of them is in use.
//!
//! The index is built from the two stores. It is then shown (`print`,
//! `generate_autocomplete`) or used to switch the record in use
//! (`change_who`).

pub use crate::listing::{generate_autocomplete, print};
pub use crate::switch::{change_who, parse_use_syntax, SwitchError};

use crate::map::{lemma_slot_map_at, lemma_slot_map_take, slot_map, Slot, SortedMap};
use crate::parser::{
    history_views, lemma_record_set_take, record_set, record_views, DockerConfig, DockvaultConfig,
};
use crate::record::{
    lemma_record_lt_irreflexive, lemma_record_lt_transitive, record_lt, AuthConfig, AuthConfigView,
};
use crate::sorted::{
    ascending, ascends, has_key, item_of, lemma_ascending_unique, lemma_item_of, strict_order,
    to_map, Keyed, SortedVec,
};
use crate::text::{
    lemma_str_lt_connected, lemma_str_lt_irreflexive, lemma_str_lt_transitive, str_less, str_lt,
    str_same,
};
use crate::token::{get_username_from_auth, token_username};
use core::cmp::Ordering;
use vstd::prelude::*;
use vstd::std_specs::cmp::PartialEqSpecImpl;
use vstd::std_specs::cmp::PartialOrdSpecImpl;

verus! {

/// What an entry of the index holds.
pub struct StateEntryView {
    /// The user name that the token stands for.
    pub username: Seq<char>,
    /// Whether the record is the one in use for its registry.
    pub is_used: bool,
    /// The token, as the record holds it.
    pub auth_b64: Seq<char>,
    /// The record that the entry was made from.
    pub auth_cfg: AuthConfigView,
}

/// What an entry is found by, and ordered by: the user name, then whether it
/// is in use, then the token.
pub struct EntryKey {
    pub username: Seq<char>,
    pub is_used: bool,
    pub auth_b64: Seq<char>,
}

/// The key of an entry.
pub open spec fn entry_key(e: StateEntryView) -> EntryKey {
    EntryKey { username: e.username, is_used: e.is_used, auth_b64: e.auth_b64 }
}

/// The order on entries: by user name, then those not in use before the one
/// in use, then by token.
pub open spec fn entry_lt(a: EntryKey, b: EntryKey) -> bool {
    if a.username != b.username {
        str_lt(a.username, b.username)
    } else if a.is_used != b.is_used {
        !a.is_used
    } else {
        str_lt(a.auth_b64, b.auth_b64)
    }
}

/// One user of one registry, as the index lists it.
#[derive(Debug, Ord)]
pub struct StateEntry {
    username: String,
    is_used: bool,
    auth_b64: String,
    auth_cfg: AuthConfig,
}

impl View for StateEntry {
    type V = StateEntryView;

    closed spec fn view(&self) -> StateEntryView {
        StateEntryView {
            username: self.username@,
            is_used: self.is_used,
            auth_b64: self.auth_b64@,
            auth_cfg: self.auth_cfg@,
        }
    }
}

impl StateEntry {
    /// The user name that the token stands for.
    pub fn username(&self) -> (r: &str)
        ensures
            r@ == self@.username,
    {
        self.username.as_str()
    }

    /// Whether the record is the one in use for its registry.
    pub fn is_used(&self) -> (r: bool)
        ensures
            r == self@.is_used,
    {
        self.is_used
    }

    /// The token, as the record holds it.
    pub fn auth_b64(&self) -> (r: &str)
        ensures
            r@ == self@.auth_b64,
    {
        self.auth_b64.as_str()
    }

    /// The record that the entry was made from.
    pub fn auth_cfg(&self) -> (r: &AuthConfig)
        ensures
            r@ == self@.auth_cfg,
    {
        &self.auth_cfg
    }
}

impl Keyed for StateEntry {
    type Key = EntryKey;

    open spec fn key(&self) -> EntryKey {
        entry_key(self@)
    }

    open spec fn key_lt(a: EntryKey, b: EntryKey) -> bool {
        entry_lt(a, b)
    }

    proof fn lemma_key_lt_irreflexive(a: EntryKey) {
        lemma_str_lt_irreflexive(a.auth_b64);
    }

    proof fn lemma_key_lt_transitive(a: EntryKey, b: EntryKey, c: EntryKey) {
        lemma_str_lt_irreflexive(a.username);
        lemma_str_lt_irreflexive(a.auth_b64);
        if str_lt(a.username, b.username) && str_lt(b.username, c.username) {
            lemma_str_lt_transitive(a.username, b.username, c.username);
        }
        if str_lt(a.auth_b64, b.auth_b64) && str_lt(b.auth_b64, c.auth_b64) {
            lemma_str_lt_transitive(a.auth_b64, b.auth_b64, c.auth_b64);
        }
    }

    proof fn lemma_key_lt_connected(a: EntryKey, b: EntryKey) {
        lemma_str_lt_connected(a.username, b.username);
        lemma_str_lt_connected(a.auth_b64, b.auth_b64);
    }

    fn precedes(&self, other: &Self) -> (r: bool) {
        if !str_same(self.username.as_str(), other.username.as_str()) {
            str_less(self.username.as_str(), other.username.as_str())
        } else if self.is_used != other.is_used {
            !self.is_used
        } else {
            str_less(self.auth_b64.as_str(), other.auth_b64.as_str())
        }
    }

    fn same_key(&self, other: &Self) -> (r: bool) {
        str_same(self.username.as_str(), other.username.as_str()) && self.is_used == other.is_used
            && str_same(self.auth_b64.as_str(), other.auth_b64.as_str())
    }
}

impl StateEntry {
    /// Whether the two entries hold the same: user name, use, token and
    /// record.
    pub fn same(&self, other: &Self) -> (r: bool)
        ensures
            r == (self@ == other@),
    {
        self.same_key(other) && self.auth_cfg.same(&other.auth_cfg)
    }
}

impl PartialEqSpecImpl for StateEntry {
    open spec fn obeys_eq_spec() -> bool {
        true
    }

    open spec fn eq_spec(&self, other: &Self) -> bool {
        self@ == other@
    }
}

impl PartialEq for StateEntry {
    /// Two entries are equal when they hold the same.
    fn eq(&self, other: &Self) -> (r: bool) {
        self.same(other)
    }
}

impl Eq for StateEntry {

}

impl PartialOrdSpecImpl for StateEntry {
    open spec fn obeys_partial_cmp_spec() -> bool {
        true
    }

    open spec fn partial_cmp_spec(&self, other: &Self) -> Option<Ordering> {
        if self@ == other@ {
            Some(Ordering::Equal)
        } else if entry_lt(entry_key(self@), entry_key(other@)) || (entry_key(self@) == entry_key(
            other@,
        ) && record_lt(self@.auth_cfg, other@.auth_cfg)) {
            Some(Ordering::Less)
        } else {
            Some(Ordering::Greater)
        }
    }
}

impl PartialOrd for StateEntry {
    /// Entries are ordered by user name, then use, then token; two entries
    /// that agree in these are ordered as their records are.
    fn partial_cmp(&self, other: &Self) -> (r: Option<Ordering>) {
        if self.same(other) {
            Some(Ordering::Equal)
        } else if self.precedes(other) || (self.same_key(other) && self.auth_cfg.precedes(
            &other.auth_cfg,
        )) {
            Some(Ordering::Less)
        } else {
            Some(Ordering::Greater)
        }
    }
}

/// The views of the entries of a listing.
pub open spec fn entry_views(s: Seq<StateEntry>) -> Seq<StateEntryView> {
    s.map_values(|e: StateEntry| e@)
}

/// The key under which a record is listed: none where the record has no
/// token, or a token that stands for no user.
pub open spec fn emitted(record: AuthConfigView, active: Option<AuthConfigView>) -> Option<
    EntryKey,
> {
    match record.auth {
        Some(token) => match token_username(token) {
            Some(name) => Some(
                EntryKey { username: name, is_used: active == Some(record), auth_b64: token },
            ),
            None => None,
        },
        None => None,
    }
}

/// The entry `e` lists a record of `history`: it holds that record and the
/// key that belongs to it, and where several records of the history have
/// that key, it holds the last of them in the order of records.
pub open spec fn stands_for(
    e: StateEntryView,
    history: Set<AuthConfigView>,
    active: Option<AuthConfigView>,
) -> bool {
    &&& history.contains(e.auth_cfg)
    &&& emitted(e.auth_cfg, active) == Some(entry_key(e))
    &&& forall|record: AuthConfigView| #[trigger]
        history.contains(record) && emitted(record, active) == Some(entry_key(e)) ==> record
            == e.auth_cfg || record_lt(record, e.auth_cfg)
}

/// The keys of `entries` ascend strictly.
pub open spec fn entries_ascending(entries: Seq<StateEntryView>) -> bool {
    forall|i: int, j: int|
        0 <= i < j < entries.len() ==> entry_lt(
            entry_key(#[trigger] entries[i]),
            entry_key(#[trigger] entries[j]),
        )
}

/// Some entry of `entries` has the key `k`.
pub open spec fn lists_key(entries: Seq<StateEntryView>, k: EntryKey) -> bool {
    exists|i: int| 0 <= i < entries.len() && entry_key(#[trigger] entries[i]) == k
}

/// `entries` is the index of `history`, with `active` the record in use:
/// every record whose token stands for a user is listed under its key, every
/// entry lists such a record, and the entries ascend.
pub open spec fn indexes(
    entries: Seq<StateEntryView>,
    history: Set<AuthConfigView>,
    active: Option<AuthConfigView>,
) -> bool {
    &&& entries_ascending(entries)
    &&& forall|i: int| 0 <= i < entries.len() ==> stands_for(#[trigger] entries[i], history, active)
    &&& forall|record: AuthConfigView| #[trigger]
        history.contains(record) && emitted(record, active) is Some ==> lists_key(
            entries,
            emitted(record, active)->0,
        )
}

/// The view of an optional record.
pub open spec fn opt_record_view(record: Option<&AuthConfig>) -> Option<AuthConfigView> {
    match record {
        Some(r) => Some(r@),
        None => None,
    }
}

/// The token of a record and the user that it stands for, where the record
/// has a token that stands for one.
fn listed_as(record: &AuthConfig) -> (r: Option<(&str, String)>)
    ensures
        match r {
            Some((token, name)) => record@.auth == Some(token@) && token_username(token@) == Some(
                name@,
            ),
            None => forall|active: Option<AuthConfigView>| emitted(record@, active) is None,
        },
{
    match record.auth() {
        Some(token) => match get_username_from_auth(token) {
            Some(name) => Some((token, name)),
            None => None,
        },
        None => None,
    }
}

/// Lists the records of one registry whose token stands for a user. An
/// entry is marked as in use where its record is `active`.
pub fn index_history(records: &SortedVec<AuthConfig>, active: Option<&AuthConfig>) -> (entries:
    SortedVec<StateEntry>)
    ensures
        indexes(entry_views(entries@), record_set(records@), opt_record_view(active)),
{
    let ghost act = opt_record_view(active);
    let mut entries: SortedVec<StateEntry> = SortedVec::new();
    records.ordered();
    let n = records.len();
    let mut j: usize = 0;
    while j < n
        invariant
            n == records@.len(),
            j <= n,
            ascending(records@),
            act == opt_record_view(active),
            forall|k: EntryKey| #[trigger]
                has_key(entries@, k) ==> stands_for(
                    item_of(entries@, k)@,
                    record_set(records@.take(j as int)),
                    act,
                ),
            forall|record: AuthConfigView| #[trigger]
                record_set(records@.take(j as int)).contains(record) && emitted(record, act)
                    is Some ==> has_key(entries@, emitted(record, act)->0),
        decreases n - j,
    {
        let ghost seen = record_set(records@.take(j as int));
        let ghost next = record_set(records@.take(j + 1));
        let ghost before = entries@;
        match records.get(j) {
            Some(record) => {
                proof {
                    lemma_record_set_take(records@, j as int);
                }
                match listed_as(record) {
                    Some((token, username)) => {
                        let is_used = match active {
                            Some(a) => a.same(record),
                            None => false,
                        };
                        let entry = StateEntry {
                            username,
                            is_used,
                            auth_b64: token.to_owned(),
                            auth_cfg: record.clone(),
                        };
                        assert(emitted(record@, act) == Some(entry.key()));
                        entries.insert(entry);
                        proof {
                            let k0 = entry.key();
                            assert forall|k: EntryKey| #[trigger]
                                has_key(entries@, k) implies stands_for(
                                item_of(entries@, k)@,
                                next,
                                act,
                            ) by {
                                assert(to_map(entries@).contains_key(k));
                                assert(to_map(entries@)[k] == item_of(entries@, k));
                                if k != k0 {
                                    assert(to_map(before).contains_key(k));
                                    assert(to_map(before)[k] == item_of(before, k));
                                    assert(has_key(before, k));
                                }
                            }
                            assert forall|r: AuthConfigView| #[trigger]
                                next.contains(r) && emitted(r, act) is Some implies has_key(
                                entries@,
                                emitted(r, act)->0,
                            ) by {
                                let k = emitted(r, act)->0;
                                assert(to_map(entries@).contains_key(k) == has_key(entries@, k));
                                if r != record@ {
                                    assert(seen.contains(r));
                                    assert(has_key(before, k));
                                    assert(to_map(before).contains_key(k));
                                }
                            }
                        }
                    },
                    None => {
                        assert(emitted(record@, act) is None);
                    },
                }
            },
            None => {},
        }
        j += 1;
    }
    entries.ordered();
    proof {
        assert(records@.take(n as int) =~= records@);
        let views = entry_views(entries@);
        let history = record_set(records@);
        assert forall|i: int| 0 <= i < views.len() implies stands_for(
            #[trigger] views[i],
            history,
            act,
        ) by {
            lemma_item_of(entries@, i);
        }
        assert forall|record: AuthConfigView| #[trigger]
            history.contains(record) && emitted(record, act) is Some implies lists_key(
            views,
            emitted(record, act)->0,
        ) by {
            let k = emitted(record, act)->0;
            assert(has_key(entries@, k));
            let i = choose|i: int| 0 <= i < entries@.len() && #[trigger] entries@[i].key() == k;
            assert(entry_key(views[i]) == k);
        }
        assert(entries_ascending(views)) by {
            assert forall|a: int, b: int| 0 <= a < b < views.len() implies entry_lt(
                entry_key(#[trigger] views[a]),
                entry_key(#[trigger] views[b]),
            ) by {
                assert(entry_lt(entries@[a].key(), entries@[b].key()));
            }
        }
    }
    entries
}

/// The record in use for `registry`, if there is one.
pub open spec fn active_record(
    auths: Map<Seq<char>, AuthConfigView>,
    registry: Seq<char>,
) -> Option<AuthConfigView> {
    if auths.contains_key(registry) {
        Some(auths[registry])
    } else {
        None
    }
}

/// Some place of the listing is that of `registry`.
pub open spec fn lists_registry(
    listing: Seq<(Seq<char>, Seq<StateEntryView>)>,
    registry: Seq<char>,
) -> bool {
    exists|i: int| 0 <= i < listing.len() && #[trigger] listing[i].0 == registry
}

/// What a listing holds, without its order: each registry with its entries.
pub open spec fn listed(listing: Seq<(Seq<char>, Seq<StateEntryView>)>) -> Map<
    Seq<char>,
    Seq<StateEntryView>,
> {
    Map::new(
        |registry: Seq<char>| lists_registry(listing, registry),
        |registry: Seq<char>|
            listing[choose|i: int| 0 <= i < listing.len() && #[trigger] listing[i].0 == registry].1,
    )
}

/// The registries of the listing ascend strictly.
pub open spec fn names_ascending(listing: Seq<(Seq<char>, Seq<StateEntryView>)>) -> bool {
    forall|i: int, j: int|
        0 <= i < j < listing.len() ==> str_lt(#[trigger] listing[i].0, #[trigger] listing[j].0)
}

/// In an ascending listing each registry is mapped to the entries at its place.
pub proof fn lemma_listed_at(listing: Seq<(Seq<char>, Seq<StateEntryView>)>, i: int)
    requires
        names_ascending(listing),
        0 <= i < listing.len(),
    ensures
        listed(listing).contains_key(listing[i].0),
        listed(listing)[listing[i].0] == listing[i].1,
{
    let registry = listing[i].0;
    let j = choose|j: int| 0 <= j < listing.len() && #[trigger] listing[j].0 == registry;
    lemma_str_lt_irreflexive(registry);
    if j < i {
        assert(str_lt(listing[j].0, listing[i].0));
    } else if i < j {
        assert(str_lt(listing[i].0, listing[j].0));
    }
}

/// The listing that the slots of an index stand for.
pub open spec fn slots_listing(slots: Seq<Slot<SortedVec<StateEntry>>>) -> Seq<
    (Seq<char>, Seq<StateEntryView>),
> {
    slots.map_values(|slot: Slot<SortedVec<StateEntry>>| (slot.name@, entry_views(slot.value@)))
}

/// The listing of ascending slots ascends, and holds what the slots hold.
proof fn lemma_slots_listing(slots: Seq<Slot<SortedVec<StateEntry>>>)
    requires
        ascending(slots),
    ensures
        names_ascending(slots_listing(slots)),
        listed(slots_listing(slots)) == slot_map(slots).map_values(
            |entries: SortedVec<StateEntry>| entry_views(entries@),
        ),
{
    let listing = slots_listing(slots);
    assert(names_ascending(listing)) by {
        assert forall|i: int, j: int| 0 <= i < j < listing.len() implies str_lt(
            #[trigger] listing[i].0,
            #[trigger] listing[j].0,
        ) by {
            assert(str_lt(slots[i].key(), slots[j].key()));
        }
    }
    let held = slot_map(slots).map_values(|entries: SortedVec<StateEntry>| entry_views(entries@));
    assert forall|registry: Seq<char>| lists_registry(listing, registry) == has_key(
        slots,
        registry,
    ) by {
        if lists_registry(listing, registry) {
            let i = choose|i: int| 0 <= i < listing.len() && #[trigger] listing[i].0 == registry;
            assert(slots[i].key() == registry);
        }
        if has_key(slots, registry) {
            let i = choose|i: int| 0 <= i < slots.len() && #[trigger] slots[i].key() == registry;
            assert(listing[i].0 == registry);
        }
    }
    assert forall|registry: Seq<char>| lists_registry(listing, registry) implies listed(
        listing,
    )[registry] == held[registry] by {
        let i = choose|i: int| 0 <= i < listing.len() && #[trigger] listing[i].0 == registry;
        lemma_listed_at(listing, i);
        lemma_slot_map_at(slots, i);
    }
    assert(listed(listing) =~= held);
}

/// The index: for each registry of the vault, the users that the vault knows
/// for it, in ascending order.
#[derive(Debug)]
pub struct State(SortedMap<SortedVec<StateEntry>>);

impl View for State {
    type V = Map<Seq<char>, Seq<StateEntryView>>;

    /// Each registry with its entries.
    open spec fn view(&self) -> Map<Seq<char>, Seq<StateEntryView>> {
        listed(self.listing())
    }
}

impl State {
    /// The registries in ascending order, each with its entries in order.
    pub closed spec fn listing(&self) -> Seq<(Seq<char>, Seq<StateEntryView>)> {
        slots_listing(self.0.slots())
    }

    /// The entries of `registry`, if the index has that registry.
    pub fn get(&self, registry: &str) -> (r: Option<&SortedVec<StateEntry>>)
        ensures
            match r {
                Some(entries) => self@.contains_key(registry@) && entry_views(entries@)
                    == self@[registry@],
                None => !self@.contains_key(registry@),
            },
    {
        self.0.ordered();
        proof {
            lemma_slots_listing(self.0.slots());
        }
        self.0.get(registry)
    }

    /// The entries of each registry.
    pub fn entries(&self) -> (r: &SortedMap<SortedVec<StateEntry>>)
        ensures
            slots_listing(r.slots()) == self.listing(),
    {
        &self.0
    }

    /// States that the registries of the listing ascend, which holds of every
    /// index.
    pub fn ordered(&self)
        ensures
            names_ascending(self.listing()),
    {
        self.0.ordered();
        proof {
            lemma_slots_listing(self.0.slots());
        }
    }
}

/// `listing` is the index of the vault, with `auths` the records in use: it
/// lists the registries of the vault in ascending order, and what it lists
/// for a registry is the index of the history of that registry.
pub open spec fn indexes_vault(
    listing: Seq<(Seq<char>, Seq<StateEntryView>)>,
    auths: Map<Seq<char>, AuthConfigView>,
    vault: Map<Seq<char>, Set<AuthConfigView>>,
) -> bool {
    &&& names_ascending(listing)
    &&& listed(listing).dom() == vault.dom()
    &&& forall|registry: Seq<char>| #[trigger]
        listed(listing).contains_key(registry) ==> indexes(
            listed(listing)[registry],
            vault[registry],
            active_record(auths, registry),
        )
}

/// Builds the index of the vault. Neither store is changed.
///
/// The index has the registries of the vault. For each it lists the records
/// whose token stands for a user; the other records are left out, and that
/// is no error. An entry is marked as in use where its record is the one
/// that the active store holds for the registry.
pub fn make_state(docker_cfg: &DockerConfig, dockvault_cfg: &DockvaultConfig) -> (state: State)
    ensures
        indexes_vault(state.listing(), docker_cfg@.auths, dockvault_cfg@),
{
    let auths = docker_cfg.auth_configs();
    let data = dockvault_cfg.data();
    data.ordered();
    let mut built: SortedMap<SortedVec<StateEntry>> = SortedMap::new();
    let n = data.len();
    let mut i: usize = 0;
    assert(built@.dom() =~= slot_map(data.slots().take(0)).dom());
    while i < n
        invariant
            n == data.slots().len(),
            i <= n,
            ascending(data.slots()),
            record_views(auths@) == docker_cfg@.auths,
            history_views(data@) == dockvault_cfg@,
            built@.dom() == slot_map(data.slots().take(i as int)).dom(),
            forall|registry: Seq<char>| #[trigger]
                built@.contains_key(registry) ==> data@.contains_key(registry) && indexes(
                    entry_views(built@[registry]@),
                    record_set(data@[registry]@),
                    active_record(docker_cfg@.auths, registry),
                ),
        decreases n - i,
    {
        match data.slot(i) {
            Some(slot) => {
                proof {
                    lemma_slot_map_take(data.slots(), i as int);
                    lemma_slot_map_at(data.slots(), i as int);
                }
                let active = auths.get(slot.name.as_str());
                let entries = index_history(&slot.value, active);
                assert(opt_record_view(active) == active_record(docker_cfg@.auths, slot.name@));
                built.insert(slot.name.clone(), entries);
            },
            None => {},
        }
        i += 1;
    }
    built.ordered();
    proof {
        assert(data.slots().take(n as int) =~= data.slots());
        lemma_slots_listing(built.slots());
    }
    let state = State(built);
    assert(state@.dom() =~= dockvault_cfg@.dom());
    state
}

/// In an index at most one entry is in use. The record it holds is the one
/// in use, so its token is the token of that record.
pub proof fn lemma_one_in_use(
    entries: Seq<StateEntryView>,
    history: Set<AuthConfigView>,
    active: Option<AuthConfigView>,
)
    requires
        indexes(entries, history, active),
    ensures
        forall|i: int|
            0 <= i < entries.len() && (#[trigger] entries[i]).is_used ==> active == Some(
                entries[i].auth_cfg,
            ) && (active->0).auth == Some(entries[i].auth_b64),
        forall|i: int, j: int|
            0 <= i < entries.len() && 0 <= j < entries.len() && (#[trigger] entries[i]).is_used
                && (#[trigger] entries[j]).is_used ==> i == j,
{
    assert forall|i: int| 0 <= i < entries.len() && (#[trigger] entries[i]).is_used implies active
        == Some(entries[i].auth_cfg) && (active->0).auth == Some(entries[i].auth_b64) by {
        assert(stands_for(entries[i], history, active));
    }
    assert forall|i: int, j: int|
        0 <= i < entries.len() && 0 <= j < entries.len() && (#[trigger] entries[i]).is_used && (
        #[trigger] entries[j]).is_used implies i == j by {
        assert(stands_for(entries[i], history, active));
        assert(stands_for(entries[j], history, active));
        assert(entry_key(entries[i]) == entry_key(entries[j]));
        lemma_str_lt_irreflexive(entries[i].auth_b64);
        if i < j {
            assert(entry_lt(entry_key(entries[i]), entry_key(entries[j])));
        } else if j < i {
            assert(entry_lt(entry_key(entries[j]), entry_key(entries[i])));
        }
    }
}

/// Two entries of an index for the same user differ in their tokens, or one
/// of them is the entry in use and the other is not: entries are not merged
/// by user name.
pub proof fn lemma_same_user_entries_differ(
    entries: Seq<StateEntryView>,
    history: Set<AuthConfigView>,
    active: Option<AuthConfigView>,
    i: int,
    j: int,
)
    requires
        indexes(entries, history, active),
        0 <= i < j < entries.len(),
        entries[i].username == entries[j].username,
    ensures
        entries[i].auth_b64 != entries[j].auth_b64 || entries[i].is_used != entries[j].is_used,
{
    assert(entry_lt(entry_key(entries[i]), entry_key(entries[j])));
    lemma_str_lt_irreflexive(entries[i].auth_b64);
}

/// Every entry of an index holds a record with a token that stands for a
/// user: the token and the user of the entry. So a record without a token, or
/// with a token that is not base64, not text, or without a `:`, is held by no
/// entry.
pub proof fn lemma_listed_tokens_decode(
    entries: Seq<StateEntryView>,
    history: Set<AuthConfigView>,
    active: Option<AuthConfigView>,
)
    requires
        indexes(entries, history, active),
    ensures
        forall|i: int|
            0 <= i < entries.len() ==> (#[trigger] entries[i]).auth_cfg.auth == Some(
                entries[i].auth_b64,
            ) && token_username(entries[i].auth_b64) == Some(entries[i].username),
{
    assert forall|i: int| 0 <= i < entries.len() implies (#[trigger] entries[i]).auth_cfg.auth
        == Some(entries[i].auth_b64) && token_username(entries[i].auth_b64) == Some(
        entries[i].username,
    ) by {
        assert(stands_for(entries[i], history, active));
    }
}

/// The order of entries is a strict order.
proof fn lemma_entry_lt_strict()
    ensures
        strict_order(|a: EntryKey, b: EntryKey| entry_lt(a, b)),
{
    let lt = |a: EntryKey, b: EntryKey| entry_lt(a, b);
    assert forall|a: EntryKey| !#[trigger] lt(a, a) by {
        StateEntry::lemma_key_lt_irreflexive(a);
    }
    assert forall|a: EntryKey, b: EntryKey, c: EntryKey| #[trigger]
        lt(a, b) && #[trigger] lt(b, c) implies lt(a, c) by {
        StateEntry::lemma_key_lt_transitive(a, b, c);
    }
}

/// An entry of one index of a history is an entry of every index of it.
proof fn lemma_index_shares_entries(
    e1: Seq<StateEntryView>,
    e2: Seq<StateEntryView>,
    history: Set<AuthConfigView>,
    active: Option<AuthConfigView>,
    e: StateEntryView,
)
    requires
        indexes(e1, history, active),
        indexes(e2, history, active),
        e1.contains(e),
    ensures
        e2.contains(e),
{
    let i = choose|i: int| 0 <= i < e1.len() && e1[i] == e;
    assert(stands_for(e1[i], history, active));
    assert(history.contains(e.auth_cfg));
    assert(lists_key(e2, entry_key(e)));
    let j = choose|j: int| 0 <= j < e2.len() && entry_key(#[trigger] e2[j]) == entry_key(e);
    assert(stands_for(e2[j], history, active));
    let r1 = e.auth_cfg;
    let r2 = e2[j].auth_cfg;
    assert(history.contains(r2));
    lemma_record_lt_irreflexive(r1);
    if record_lt(r1, r2) && record_lt(r2, r1) {
        lemma_record_lt_transitive(r1, r2, r1);
    }
    assert(e2[j] == e);
}

/// A history has one index only: what the stores hold decides every entry
/// and the order of the entries.
pub proof fn lemma_index_determined(
    e1: Seq<StateEntryView>,
    e2: Seq<StateEntryView>,
    history: Set<AuthConfigView>,
    active: Option<AuthConfigView>,
)
    requires
        indexes(e1, history, active),
        indexes(e2, history, active),
    ensures
        e1 == e2,
{
    let key = |e: StateEntryView| entry_key(e);
    let lt = |a: EntryKey, b: EntryKey| entry_lt(a, b);
    lemma_entry_lt_strict();
    assert forall|e: StateEntryView| e1.contains(e) == e2.contains(e) by {
        if e1.contains(e) {
            lemma_index_shares_entries(e1, e2, history, active, e);
        }
        if e2.contains(e) {
            lemma_index_shares_entries(e2, e1, history, active, e);
        }
    }
    assert(ascends(e1, key, lt));
    assert(ascends(e2, key, lt));
    lemma_ascending_unique(e1, e2, key, lt);
}

/// A registry of one index of the stores has the same entries in every
/// index of them.
proof fn lemma_state_shares_registries(
    l1: Seq<(Seq<char>, Seq<StateEntryView>)>,
    l2: Seq<(Seq<char>, Seq<StateEntryView>)>,
    auths: Map<Seq<char>, AuthConfigView>,
    vault: Map<Seq<char>, Set<AuthConfigView>>,
    block: (Seq<char>, Seq<StateEntryView>),
)
    requires
        indexes_vault(l1, auths, vault),
        indexes_vault(l2, auths, vault),
        l1.contains(block),
    ensures
        l2.contains(block),
{
    let i = choose|i: int| 0 <= i < l1.len() && l1[i] == block;
    lemma_listed_at(l1, i);
    let registry = block.0;
    assert(listed(l1).contains_key(registry));
    assert(vault.dom().contains(registry));
    assert(listed(l2).dom().contains(registry));
    assert(lists_registry(l2, registry));
    let j = choose|j: int| 0 <= j < l2.len() && #[trigger] l2[j].0 == registry;
    lemma_listed_at(l2, j);
    lemma_index_determined(
        block.1,
        l2[j].1,
        vault[registry],
        active_record(auths, registry),
    );
    assert(l2[j] == block);
}

/// The stores have one index only: what they hold decides which registries
/// the index lists, in which order, and with which entries.
pub proof fn lemma_state_determined(
    l1: Seq<(Seq<char>, Seq<StateEntryView>)>,
    l2: Seq<(Seq<char>, Seq<StateEntryView>)>,
    auths: Map<Seq<char>, AuthConfigView>,
    vault: Map<Seq<char>, Set<AuthConfigView>>,
)
    requires
        indexes_vault(l1, auths, vault),
        indexes_vault(l2, auths, vault),
    ensures
        l1 == l2,
{
    let key = |block: (Seq<char>, Seq<StateEntryView>)| block.0;
    let lt = |a: Seq<char>, b: Seq<char>| str_lt(a, b);
    assert(strict_order(lt)) by {
        assert forall|a: Seq<char>| !#[trigger] lt(a, a) by {
            lemma_str_lt_irreflexive(a);
        }
        assert forall|a: Seq<char>, b: Seq<char>, c: Seq<char>| #[trigger]
            lt(a, b) && #[trigger] lt(b, c) implies lt(a, c) by {
            lemma_str_lt_transitive(a, b, c);
        }
    }
    assert forall|block: (Seq<char>, Seq<StateEntryView>)| l1.contains(block) == l2.contains(
        block,
    ) by {
        if l1.contains(block) {
            lemma_state_shares_registries(l1, l2, auths, vault, block);
        }
        if l2.contains(block) {
            lemma_state_shares_registries(l2, l1, auths, vault, block);
        }
    }
    assert(ascends(l1, key, lt));
    assert(ascends(l2, key, lt));
    lemma_ascending_unique(l1, l2, key, lt);
}

} // verus!
