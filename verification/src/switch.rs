//! The switch: putting the record of another user in use for a registry.

use crate::parser::{DockerConfig, DockerConfigView};
use crate::record::{
    lemma_record_lt_connected, lemma_record_lt_irreflexive, lemma_record_lt_transitive, record_lt,
    AuthConfigView,
};
use crate::sorted::{Keyed, SortedVec};
use crate::state::{
    emitted, entry_key, entry_views, indexes, lists_key, stands_for, State, StateEntry,
    StateEntryView,
};
use crate::text::{split_once, split_once_spec, str_same};
use crate::token::token_username;
use vstd::prelude::*;
use vstd::string::StringExecFns;

verus! {

/// Some entry of `entries` is for the user `username`.
pub open spec fn has_user(entries: Seq<StateEntryView>, username: Seq<char>) -> bool {
    exists|i: int| 0 <= i < entries.len() && (#[trigger] entries[i]).username == username
}

/// The entry at place `i` is for the user `username`, and no entry for that
/// user holds a record that comes after the record of this one.
pub open spec fn is_choice(entries: Seq<StateEntryView>, username: Seq<char>, i: int) -> bool {
    &&& 0 <= i < entries.len()
    &&& entries[i].username == username
    &&& forall|j: int|
        0 <= j < entries.len() && (#[trigger] entries[j]).username == username ==> !record_lt(
            entries[i].auth_cfg,
            entries[j].auth_cfg,
        )
}

/// The record that a switch to `username` puts in use: of the records that
/// the entries for that user hold, the last in the order of records.
pub open spec fn chosen_record(entries: Seq<StateEntryView>, username: Seq<char>) -> AuthConfigView {
    entries[choose|i: int| is_choice(entries, username, i)].auth_cfg
}

/// Every choice holds the same record.
pub proof fn lemma_choice_is_chosen(entries: Seq<StateEntryView>, username: Seq<char>, i: int)
    requires
        is_choice(entries, username, i),
    ensures
        chosen_record(entries, username) == entries[i].auth_cfg,
{
    let c = choose|c: int| is_choice(entries, username, c);
    lemma_record_lt_connected(entries[c].auth_cfg, entries[i].auth_cfg);
}

/// Why a switch was not made.
#[derive(Debug, PartialEq, Eq)]
pub enum SwitchError {
    /// The index has no such registry.
    UnknownRegistry { registry: String },
    /// The index has the registry, but no entry for the user under it.
    UnknownUser { registry: String, username: String },
}

/// What a switch error says.
pub open spec fn switch_message(e: SwitchError) -> Seq<char> {
    match e {
        SwitchError::UnknownRegistry { registry } => "registry `"@ + registry@
            + "` does not exist."@,
        SwitchError::UnknownUser { registry, username } => "username `"@ + username@
            + "` does not exist in registry "@ + registry@ + "."@,
    }
}

impl SwitchError {
    /// The sentence that tells the user what was wrong.
    pub fn message(&self) -> (text: String)
        ensures
            text@ == switch_message(*self),
    {
        match self {
            SwitchError::UnknownRegistry { registry } => {
                let mut text = "registry `".to_owned();
                text.append(registry.as_str());
                text.append("` does not exist.");
                text
            },
            SwitchError::UnknownUser { registry, username } => {
                let mut text = "username `".to_owned();
                text.append(username.as_str());
                text.append("` does not exist in registry ");
                text.append(registry.as_str());
                text.append(".");
                text
            },
        }
    }
}

/// The place of the entry that a switch to `username` chooses.
fn choose_entry(entries: &SortedVec<StateEntry>, username: &str) -> (r: Option<usize>)
    ensures
        match r {
            Some(b) => is_choice(entry_views(entries@), username@, b as int),
            None => !has_user(entry_views(entries@), username@),
        },
{
    let ghost views = entry_views(entries@);
    let n = entries.len();
    let mut best: Option<usize> = None;
    let mut j: usize = 0;
    while j < n
        invariant
            n == entries@.len(),
            j <= n,
            views == entry_views(entries@),
            match best {
                Some(b) => b < j && is_choice(views.take(j as int), username@, b as int),
                None => forall|i: int| 0 <= i < j ==> (#[trigger] views[i]).username != username@,
            },
        decreases n - j,
    {
        let ghost seen = views.take(j as int);
        let ghost next = views.take(j + 1);
        match entries.get(j) {
            Some(entry) => {
                if str_same(entry.username(), username) {
                    let better = match best {
                        Some(b) => match entries.get(b) {
                            Some(held) => held.auth_cfg().precedes(entry.auth_cfg()),
                            None => true,
                        },
                        None => true,
                    };
                    if better {
                        proof {
                            lemma_record_lt_irreflexive(entry@.auth_cfg);
                            assert forall|i: int|
                                0 <= i < next.len() && (#[trigger] next[i]).username
                                    == username@ implies !record_lt(
                                next[j as int].auth_cfg,
                                next[i].auth_cfg,
                            ) by {
                                if i < j && best is Some {
                                    let b = best->0 as int;
                                    assert(seen[i].username == username@);
                                    if record_lt(next[j as int].auth_cfg, next[i].auth_cfg) {
                                        lemma_record_lt_transitive(
                                            seen[b].auth_cfg,
                                            next[j as int].auth_cfg,
                                            seen[i].auth_cfg,
                                        );
                                    }
                                } else if i < j {
                                    assert(views[i].username != username@);
                                }
                            }
                        }
                        best = Some(j);
                    } else {
                        proof {
                            let b = best->0 as int;
                            assert forall|i: int|
                                0 <= i < next.len() && (#[trigger] next[i]).username
                                    == username@ implies !record_lt(
                                next[b].auth_cfg,
                                next[i].auth_cfg,
                            ) by {
                                if i < j {
                                    assert(seen[i].username == username@);
                                }
                            }
                        }
                    }
                } else {
                    proof {
                        if best is Some {
                            let b = best->0 as int;
                            assert forall|i: int|
                                0 <= i < next.len() && (#[trigger] next[i]).username
                                    == username@ implies !record_lt(
                                next[b].auth_cfg,
                                next[i].auth_cfg,
                            ) by {
                                assert(seen[i].username == username@);
                            }
                        }
                    }
                }
            },
            None => {},
        }
        j += 1;
    }
    proof {
        assert(views.take(n as int) =~= views);
    }
    best
}

/// Puts the record of `username` in use for `registry`.
///
/// Both must be known to the index. Where the index has several entries for
/// the user, the record is the last, in the order of records, of those that
/// the entries hold. Only the record in use for `registry` changes: the
/// records in use for other registries stay, and so does everything else
/// that the active store carries. On an error the active store is as it was.
pub fn change_who(state: &State, docker_cfg: &mut DockerConfig, registry: &str, username: &str) -> (r:
    Result<(), SwitchError>)
    ensures
        match r {
            Ok(_) => {
                &&& state@.contains_key(registry@)
                &&& has_user(state@[registry@], username@)
                &&& final(docker_cfg)@ == (DockerConfigView {
                    auths: old(docker_cfg)@.auths.insert(
                        registry@,
                        chosen_record(state@[registry@], username@),
                    ),
                    passthrough: old(docker_cfg)@.passthrough,
                })
            },
            Err(SwitchError::UnknownRegistry { registry: named }) => {
                &&& !state@.contains_key(registry@)
                &&& named@ == registry@
                &&& *final(docker_cfg) == *old(docker_cfg)
            },
            Err(SwitchError::UnknownUser { registry: named, username: user }) => {
                &&& state@.contains_key(registry@)
                &&& !has_user(state@[registry@], username@)
                &&& named@ == registry@
                &&& user@ == username@
                &&& *final(docker_cfg) == *old(docker_cfg)
            },
        },
{
    match state.get(registry) {
        Some(entries) => {
            match choose_entry(entries, username) {
                Some(b) => {
                    match entries.get(b) {
                        Some(entry) => {
                            proof {
                                lemma_choice_is_chosen(entry_views(entries@), username@, b as int);
                            }
                            docker_cfg.change_auth_cfg(registry.to_owned(), entry.auth_cfg().clone());
                            Ok(())
                        },
                        None => Ok(()),
                    }
                },
                None => Err(
                    SwitchError::UnknownUser {
                        registry: registry.to_owned(),
                        username: username.to_owned(),
                    },
                ),
            }
        },
        None => Err(SwitchError::UnknownRegistry { registry: registry.to_owned() }),
    }
}

/// What `use` is told: a user name, `@`, and a registry.
pub open spec fn use_syntax(text: Seq<char>) -> Option<(Seq<char>, Seq<char>)> {
    split_once_spec(text, '@')
}

/// Reads `username@registry`: the user name is what stands before the first
/// `@`, the registry what stands after it. A text without `@` is none.
pub fn parse_use_syntax(text: &str) -> (r: Option<(String, String)>)
    ensures
        match r {
            Some((username, registry)) => use_syntax(text@) == Some((username@, registry@)),
            None => use_syntax(text@) is None,
        },
{
    split_once(text, '@')
}

/// Among the first `n` entries, the place of one for `username` whose record
/// no other of them for that user exceeds.
proof fn lemma_choice_among(entries: Seq<StateEntryView>, username: Seq<char>, n: int) -> (b: int)
    requires
        0 <= n <= entries.len(),
        has_user(entries.take(n), username),
    ensures
        is_choice(entries.take(n), username, b),
    decreases n,
{
    let head = entries.take(n);
    let shorter = entries.take(n - 1);
    assert(shorter =~= head.drop_last());
    let w = choose|i: int| 0 <= i < head.len() && (#[trigger] head[i]).username == username;
    if has_user(shorter, username) {
        let b = lemma_choice_among(entries, username, n - 1);
        let last = head[n - 1];
        if last.username == username && record_lt(shorter[b].auth_cfg, last.auth_cfg) {
            lemma_record_lt_irreflexive(last.auth_cfg);
            assert forall|j: int|
                0 <= j < head.len() && (#[trigger] head[j]).username == username implies !record_lt(
                last.auth_cfg,
                head[j].auth_cfg,
            ) by {
                if j < n - 1 {
                    assert(shorter[j].username == username);
                    if record_lt(last.auth_cfg, head[j].auth_cfg) {
                        lemma_record_lt_transitive(
                            shorter[b].auth_cfg,
                            last.auth_cfg,
                            shorter[j].auth_cfg,
                        );
                    }
                }
            }
            n - 1
        } else {
            assert forall|j: int|
                0 <= j < head.len() && (#[trigger] head[j]).username == username implies !record_lt(
                head[b].auth_cfg,
                head[j].auth_cfg,
            ) by {
                if j < n - 1 {
                    assert(shorter[j].username == username);
                }
            }
            b
        }
    } else {
        assert(w == n - 1) by {
            if w < n - 1 {
                assert(shorter[w].username == username);
            }
        }
        lemma_record_lt_irreflexive(head[n - 1].auth_cfg);
        assert forall|j: int|
            0 <= j < head.len() && (#[trigger] head[j]).username == username implies !record_lt(
            head[n - 1].auth_cfg,
            head[j].auth_cfg,
        ) by {
            if j < n - 1 {
                assert(shorter[j].username == username);
            }
        }
        n - 1
    }
}

/// What a switch puts in use, where the entries are the index of a history:
/// a record of that history whose token stands for the user, and of all such
/// records of the history the last in the order of records.
pub proof fn lemma_switch_target(
    entries: Seq<StateEntryView>,
    history: Set<AuthConfigView>,
    active: Option<AuthConfigView>,
    username: Seq<char>,
)
    requires
        indexes(entries, history, active),
        has_user(entries, username),
    ensures
        history.contains(chosen_record(entries, username)),
        chosen_record(entries, username).auth is Some,
        token_username(chosen_record(entries, username).auth->0) == Some(username),
        forall|record: AuthConfigView| #[trigger]
            history.contains(record) && record.auth is Some && token_username(record.auth->0)
                == Some(username) ==> record == chosen_record(entries, username) || record_lt(
                record,
                chosen_record(entries, username),
            ),
{
    assert(entries.take(entries.len() as int) =~= entries);
    let b = lemma_choice_among(entries, username, entries.len() as int);
    lemma_choice_is_chosen(entries, username, b);
    let target = entries[b].auth_cfg;
    assert(stands_for(entries[b], history, active));
    assert forall|record: AuthConfigView| #[trigger]
        history.contains(record) && record.auth is Some && token_username(record.auth->0) == Some(
            username,
        ) implies record == target || record_lt(record, target) by {
        let k = emitted(record, active)->0;
        assert(lists_key(entries, k));
        let i = choose|i: int| 0 <= i < entries.len() && entry_key(#[trigger] entries[i]) == k;
        assert(stands_for(entries[i], history, active));
        assert(entries[i].username == username);
        lemma_record_lt_connected(entries[i].auth_cfg, target);
        if record_lt(record, entries[i].auth_cfg) && record_lt(entries[i].auth_cfg, target) {
            lemma_record_lt_transitive(record, entries[i].auth_cfg, target);
        }
    }
}

/// After a switch the index shows the user in use: where the record that
/// the switch chose has become the record in use, the index of the same
/// history has an entry for that user that is in use and holds that record.
pub proof fn lemma_switched_is_in_use(
    before: Seq<StateEntryView>,
    after: Seq<StateEntryView>,
    history: Set<AuthConfigView>,
    active: Option<AuthConfigView>,
    username: Seq<char>,
)
    requires
        indexes(before, history, active),
        has_user(before, username),
        indexes(after, history, Some(chosen_record(before, username))),
    ensures
        exists|i: int|
            0 <= i < after.len() && (#[trigger] after[i]).is_used && after[i].username == username
                && after[i].auth_cfg == chosen_record(before, username),
{
    let target = chosen_record(before, username);
    lemma_switch_target(before, history, active, username);
    let k = emitted(target, Some(target))->0;
    assert(lists_key(after, k));
    let i = choose|i: int| 0 <= i < after.len() && entry_key(#[trigger] after[i]) == k;
    assert(stands_for(after[i], history, Some(target)));
    assert(after[i].is_used);
}

} // verus!
