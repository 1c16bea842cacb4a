//! The two stores that hold credential records, the documents they are read
//! from and written as, and the merge of the active store into the vault.

pub use crate::record::{AuthConfig, AuthConfigView};

use crate::map::{
    lemma_map_values_insert, lemma_slot_map_at, lemma_slot_map_take, slot_map, SortedMap,
};
use crate::record::{
    document_record, lemma_record_round_trip, record_document, record_lt, string_views,
};
use crate::sorted::{ascending, has_key, to_map, Keyed, SortedVec};
use vstd::prelude::*;

verus! {

/// The views of the records of a map.
pub open spec fn record_views(m: Map<Seq<char>, AuthConfig>) -> Map<Seq<char>, AuthConfigView> {
    m.map_values(|r: AuthConfig| r@)
}

/// The records that a history lists, as a set.
pub open spec fn record_set(s: Seq<AuthConfig>) -> Set<AuthConfigView> {
    Set::new(|v: AuthConfigView| has_key(s, v))
}

/// The first `j + 1` records of a history in ascending order are the first
/// `j` and one more, which comes after each of them.
pub proof fn lemma_record_set_take(records: Seq<AuthConfig>, j: int)
    requires
        ascending(records),
        0 <= j < records.len(),
    ensures
        record_set(records.take(j + 1)) == record_set(records.take(j)).insert(records[j]@),
        forall|v: AuthConfigView| #[trigger]
            record_set(records.take(j)).contains(v) ==> record_lt(v, records[j]@),
{
    let seen = records.take(j);
    let next = records.take(j + 1);
    assert forall|v: AuthConfigView| record_set(next).contains(v) == (v == records[j]@
        || record_set(seen).contains(v)) by {
        if record_set(seen).contains(v) {
            let i = choose|i: int| 0 <= i < seen.len() && #[trigger] seen[i].key() == v;
            assert(next[i].key() == v);
        }
        if record_set(next).contains(v) {
            let i = choose|i: int| 0 <= i < next.len() && #[trigger] next[i].key() == v;
            if i < j {
                assert(seen[i].key() == v);
            }
        }
        if v == records[j]@ {
            assert(next[j].key() == v);
        }
    }
    assert(record_set(next) =~= record_set(seen).insert(records[j]@));
    assert forall|v: AuthConfigView| #[trigger]
        record_set(seen).contains(v) implies record_lt(v, records[j]@) by {
        let i = choose|i: int| 0 <= i < seen.len() && #[trigger] seen[i].key() == v;
        assert(record_lt(records[i].key(), records[j].key()));
    }
}

/// The histories of a map, each as the set of its records.
pub open spec fn history_views(m: Map<Seq<char>, SortedVec<AuthConfig>>) -> Map<
    Seq<char>,
    Set<AuthConfigView>,
> {
    m.map_values(|h: SortedVec<AuthConfig>| record_set(h@))
}

/// The name under which the active store keeps its records in the file it
/// is read from. The store holds them apart from the rest of that file.
pub open spec fn auths_name() -> Seq<char> {
    "auths"@
}

/// What the active store holds.
pub struct DockerConfigView {
    /// For each registry, the record that is in use.
    pub auths: Map<Seq<char>, AuthConfigView>,
    /// Everything else that the file holds at its top level, each name with
    /// the text of its value. The name of the records is never among them.
    pub passthrough: Map<Seq<char>, Seq<char>>,
}

/// The active store: what the Docker client currently uses.
#[derive(Debug)]
pub struct DockerConfig {
    auth_configs: SortedMap<AuthConfig>,
    passthrough: SortedMap<String>,
}

impl View for DockerConfig {
    type V = DockerConfigView;

    closed spec fn view(&self) -> DockerConfigView {
        DockerConfigView {
            auths: record_views(self.auth_configs@),
            passthrough: string_views(self.passthrough@),
        }
    }
}

impl DockerConfig {
    #[verifier::type_invariant]
    spec fn records_apart(&self) -> bool {
        !self.passthrough@.contains_key(auths_name())
    }

    /// A store of the given records and the given rest. A value that the
    /// rest holds under the name of the records is left out.
    pub fn new(auth_configs: SortedMap<AuthConfig>, passthrough: SortedMap<String>) -> (r: Self)
        ensures
            r@.auths == record_views(auth_configs@),
            r@.passthrough == string_views(passthrough@).remove(auths_name()),
    {
        let mut rest = passthrough;
        rest.remove("auths");
        assert(string_views(rest@) =~= string_views(passthrough@).remove(auths_name()));
        DockerConfig { auth_configs, passthrough: rest }
    }

    /// The record in use for each registry.
    pub fn auth_configs(&self) -> (r: &SortedMap<AuthConfig>)
        ensures
            record_views(r@) == self@.auths,
    {
        &self.auth_configs
    }

    /// Everything else that the store carries along. The name of the records
    /// is not among it.
    pub fn passthrough(&self) -> (r: &SortedMap<String>)
        ensures
            string_views(r@) == self@.passthrough,
            !self@.passthrough.contains_key(auths_name()),
    {
        proof {
            use_type_invariant(self);
        }
        &self.passthrough
    }

    /// Makes `auth_cfg` the record in use for `registry`. Nothing else changes.
    pub fn change_auth_cfg(&mut self, registry: String, auth_cfg: AuthConfig)
        ensures
            final(self)@ == (DockerConfigView {
                auths: old(self)@.auths.insert(registry@, auth_cfg@),
                passthrough: old(self)@.passthrough,
            }),
    {
        proof {
            use_type_invariant(&*self);
        }
        let mut auths: SortedMap<AuthConfig> = SortedMap::new();
        core::mem::swap(&mut auths, &mut self.auth_configs);
        auths.insert(registry, auth_cfg);
        assert(record_views(auths@) =~= old(self)@.auths.insert(registry@, auth_cfg@));
        self.auth_configs = auths;
    }
}

/// The history of `registry` in a vault: empty where the vault has none.
pub open spec fn history(
    vault: Map<Seq<char>, Set<AuthConfigView>>,
    registry: Seq<char>,
) -> Set<AuthConfigView> {
    if vault.contains_key(registry) {
        vault[registry]
    } else {
        Set::empty()
    }
}

/// The vault after the active records have been merged into it: each active
/// record has joined the history of its registry, and nothing else changed.
pub open spec fn merged(
    active: Map<Seq<char>, AuthConfigView>,
    vault: Map<Seq<char>, Set<AuthConfigView>>,
) -> Map<Seq<char>, Set<AuthConfigView>> {
    Map::new(
        |registry: Seq<char>| vault.contains_key(registry) || active.contains_key(registry),
        |registry: Seq<char>|
            if active.contains_key(registry) {
                history(vault, registry).insert(active[registry])
            } else {
                vault[registry]
            },
    )
}

/// Merging twice gives what merging once gives.
pub proof fn lemma_merge_idempotent(
    active: Map<Seq<char>, AuthConfigView>,
    vault: Map<Seq<char>, Set<AuthConfigView>>,
)
    ensures
        merged(active, merged(active, vault)) == merged(active, vault),
{
    let once = merged(active, vault);
    let twice = merged(active, once);
    assert forall|registry: Seq<char>| twice.contains_key(registry) implies twice[registry]
        == once[registry] by {
        if active.contains_key(registry) {
            assert(history(once, registry).insert(active[registry]) =~= once[registry]);
        }
    }
    assert(twice =~= once);
}

/// After a merge every active record is in the history of its registry.
pub proof fn lemma_merge_keeps_active(
    active: Map<Seq<char>, AuthConfigView>,
    vault: Map<Seq<char>, Set<AuthConfigView>>,
    registry: Seq<char>,
)
    requires
        active.contains_key(registry),
    ensures
        merged(active, vault).contains_key(registry),
        merged(active, vault)[registry].contains(active[registry]),
{
}

/// A merge takes nothing out of the vault.
pub proof fn lemma_merge_keeps_vault(
    active: Map<Seq<char>, AuthConfigView>,
    vault: Map<Seq<char>, Set<AuthConfigView>>,
    registry: Seq<char>,
    record: AuthConfigView,
)
    requires
        vault.contains_key(registry),
        vault[registry].contains(record),
    ensures
        merged(active, vault).contains_key(registry),
        merged(active, vault)[registry].contains(record),
{
}

/// The vault: for each registry, every record that was ever seen for it.
#[derive(Debug)]
pub struct DockvaultConfig(SortedMap<SortedVec<AuthConfig>>);

impl View for DockvaultConfig {
    type V = Map<Seq<char>, Set<AuthConfigView>>;

    closed spec fn view(&self) -> Map<Seq<char>, Set<AuthConfigView>> {
        history_views(self.0@)
    }
}

impl DockvaultConfig {
    /// A vault without any registry.
    pub fn new() -> (r: Self)
        ensures
            r@ == Map::<Seq<char>, Set<AuthConfigView>>::empty(),
    {
        let r = DockvaultConfig(SortedMap::new());
        assert(r@ =~= Map::<Seq<char>, Set<AuthConfigView>>::empty());
        r
    }

    /// A vault of the given histories.
    pub fn from_data(data: SortedMap<SortedVec<AuthConfig>>) -> (r: Self)
        ensures
            r@ == history_views(data@),
    {
        DockvaultConfig(data)
    }

    /// The history of each registry, in ascending order of the records.
    pub fn data(&self) -> (r: &SortedMap<SortedVec<AuthConfig>>)
        ensures
            history_views(r@) == self@,
    {
        &self.0
    }

    /// Adds `record` to the history of `registry`. A record that the history
    /// holds already is not added again.
    pub fn insert(&mut self, registry: String, record: AuthConfig)
        ensures
            final(self)@ == old(self)@.insert(
                registry@,
                history(old(self)@, registry@).insert(record@),
            ),
    {
        let mut records = match self.0.remove(registry.as_str()) {
            Some(h) => h,
            None => SortedVec::new(),
        };
        let ghost before = records@;
        assert(record_set(before) =~= history(old(self)@, registry@));
        records.insert(record);
        assert(record_set(records@) =~= record_set(before).insert(record@)) by {
            assert forall|v: AuthConfigView| has_key(records@, v) == (v == record@ || has_key(
                before,
                v,
            )) by {
                assert(to_map(records@).contains_key(v) == has_key(records@, v));
                assert(to_map(before).contains_key(v) == has_key(before, v));
            }
        }
        self.0.insert(registry, records);
        assert(self@ =~= old(self)@.insert(
            registry@,
            history(old(self)@, registry@).insert(record@),
        ));
    }
}

/// Merges the active store into the vault: every record in use joins the
/// history of its registry. The active store is read only.
pub fn merge(docker_cfg: &DockerConfig, dockvault_cfg: &mut DockvaultConfig)
    ensures
        final(dockvault_cfg)@ == merged(docker_cfg@.auths, old(dockvault_cfg)@),
        forall|registry: Seq<char>| #[trigger]
            docker_cfg@.auths.contains_key(registry) ==> final(dockvault_cfg)@.contains_key(
                registry,
            ) && final(dockvault_cfg)@[registry].contains(docker_cfg@.auths[registry]),
{
    let auths = docker_cfg.auth_configs();
    auths.ordered();
    let n = auths.len();
    let mut i: usize = 0;
    assert(dockvault_cfg@ =~= merged(record_views(slot_map(auths.slots().take(0))), dockvault_cfg@));
    while i < n
        invariant
            n == auths.slots().len(),
            i <= n,
            ascending(auths.slots()),
            dockvault_cfg@ == merged(
                record_views(slot_map(auths.slots().take(i as int))),
                old(dockvault_cfg)@,
            ),
        decreases n - i,
    {
        match auths.slot(i) {
            Some(slot) => {
                let ghost head = record_views(slot_map(auths.slots().take(i as int)));
                let ghost next = record_views(slot_map(auths.slots().take(i + 1)));
                proof {
                    lemma_slot_map_take(auths.slots(), i as int);
                    assert(next =~= head.insert(slot.name@, slot.value@));
                }
                dockvault_cfg.insert(slot.name.clone(), slot.value.clone());
                assert(dockvault_cfg@ =~= merged(next, old(dockvault_cfg)@));
            },
            None => {},
        }
        i += 1;
    }
    assert(auths.slots().take(n as int) =~= auths.slots());
}

/// The record that a document stands for.
pub open spec fn doc_record(doc: SortedMap<String>) -> AuthConfigView {
    document_record(string_views(doc@))
}

/// The records that a list of documents stands for, as a set.
pub open spec fn documents_records(docs: Seq<SortedMap<String>>) -> Set<AuthConfigView> {
    Set::new(
        |v: AuthConfigView| exists|i: int| 0 <= i < docs.len() && doc_record(#[trigger] docs[i]) == v,
    )
}

/// The records that the documents of a map stand for.
pub open spec fn documents_as_records(m: Map<Seq<char>, SortedMap<String>>) -> Map<
    Seq<char>,
    AuthConfigView,
> {
    m.map_values(|doc: SortedMap<String>| doc_record(doc))
}

/// What the documents of a map hold.
pub open spec fn document_views(m: Map<Seq<char>, SortedMap<String>>) -> Map<
    Seq<char>,
    Map<Seq<char>, Seq<char>>,
> {
    m.map_values(|doc: SortedMap<String>| string_views(doc@))
}

/// `docs` is how a history is written: one document for each record of the
/// history, each the document of its record, in ascending order of the
/// records.
pub open spec fn lists_history(docs: Seq<SortedMap<String>>, history: Set<AuthConfigView>) -> bool {
    &&& forall|j: int|
        0 <= j < docs.len() ==> string_views((#[trigger] docs[j])@) == record_document(
            doc_record(docs[j]),
        )
    &&& forall|i: int, j: int|
        0 <= i < j < docs.len() ==> record_lt(
            doc_record(#[trigger] docs[i]),
            doc_record(#[trigger] docs[j]),
        )
    &&& documents_records(docs) == history
}

/// The active store as its file holds it.
#[derive(Debug)]
pub struct DockerDocument {
    /// The documents of the records in use, by registry; none where the file
    /// has no member for them.
    pub auths: Option<SortedMap<SortedMap<String>>>,
    /// Every other member of the file: its name with the text of its value.
    pub rest: SortedMap<String>,
}

/// A copy of a map of strings.
fn copy_strings(m: &SortedMap<String>) -> (r: SortedMap<String>)
    ensures
        string_views(r@) == string_views(m@),
{
    let mut r: SortedMap<String> = SortedMap::new();
    m.ordered();
    let n = m.len();
    let mut i: usize = 0;
    assert(string_views(r@) =~= string_views(slot_map(m.slots().take(0))));
    while i < n
        invariant
            n == m.slots().len(),
            i <= n,
            ascending(m.slots()),
            string_views(r@) == string_views(slot_map(m.slots().take(i as int))),
        decreases n - i,
    {
        match m.slot(i) {
            Some(slot) => {
                proof {
                    lemma_slot_map_take(m.slots(), i as int);
                }
                let ghost before = r@;
                let value = slot.value.clone();
                r.insert(slot.name.clone(), value);
                proof {
                    let f = |s: String| s@;
                    lemma_map_values_insert(before, f, slot.name@, value);
                    lemma_map_values_insert(
                        slot_map(m.slots().take(i as int)),
                        f,
                        slot.name@,
                        slot.value,
                    );
                }
            },
            None => {},
        }
        i += 1;
    }
    assert(m.slots().take(n as int) =~= m.slots());
    r
}

/// The history that a list of documents stands for.
fn history_of_documents(docs: &Vec<SortedMap<String>>) -> (history: SortedVec<AuthConfig>)
    ensures
        record_set(history@) == documents_records(docs@),
{
    let mut history: SortedVec<AuthConfig> = SortedVec::new();
    let n = docs.len();
    let mut j: usize = 0;
    assert(record_set(history@) =~= documents_records(docs@.take(0)));
    while j < n
        invariant
            n == docs@.len(),
            j <= n,
            record_set(history@) == documents_records(docs@.take(j as int)),
        decreases n - j,
    {
        let ghost before = history@;
        let record = AuthConfig::from_document(&docs[j]);
        history.insert(record);
        proof {
            let seen = docs@.take(j as int);
            let next = docs@.take(j + 1);
            assert forall|v: AuthConfigView| record_set(history@).contains(v) == documents_records(
                next,
            ).contains(v) by {
                assert(to_map(history@).contains_key(v) == has_key(history@, v));
                assert(to_map(before).contains_key(v) == has_key(before, v));
                assert(record_set(before).contains(v) == documents_records(seen).contains(v));
                if documents_records(seen).contains(v) {
                    let i = choose|i: int| 0 <= i < seen.len() && doc_record(#[trigger] seen[i]) == v;
                    assert(doc_record(next[i]) == v);
                }
                if documents_records(next).contains(v) {
                    let i = choose|i: int| 0 <= i < next.len() && doc_record(#[trigger] next[i]) == v;
                    if i < j {
                        assert(doc_record(seen[i]) == v);
                    }
                }
                if v == record@ {
                    assert(doc_record(next[j as int]) == v);
                }
            }
            assert(record_set(history@) =~= documents_records(next));
        }
        j += 1;
    }
    assert(docs@.take(n as int) =~= docs@);
    history
}

/// The documents that a history is written as.
fn documents_of_history(history: &SortedVec<AuthConfig>) -> (docs: Vec<SortedMap<String>>)
    ensures
        lists_history(docs@, record_set(history@)),
{
    let mut docs: Vec<SortedMap<String>> = Vec::new();
    history.ordered();
    let n = history.len();
    let mut j: usize = 0;
    while j < n
        invariant
            n == history@.len(),
            j <= n,
            docs@.len() == j,
            forall|i: int|
                0 <= i < j ==> string_views((#[trigger] docs@[i])@) == record_document(
                    history@[i]@,
                ),
        decreases n - j,
    {
        match history.get(j) {
            Some(record) => {
                docs.push(record.to_document());
            },
            None => {},
        }
        j += 1;
    }
    proof {
        assert forall|i: int| 0 <= i < docs@.len() implies doc_record(#[trigger] docs@[i])
            == history@[i]@ by {
            lemma_record_round_trip(history@[i]@);
        }
        assert forall|i: int, k: int| 0 <= i < k < docs@.len() implies record_lt(
            doc_record(#[trigger] docs@[i]),
            doc_record(#[trigger] docs@[k]),
        ) by {
            assert(record_lt(history@[i].key(), history@[k].key()));
        }
        assert forall|v: AuthConfigView| documents_records(docs@).contains(v) == record_set(
            history@,
        ).contains(v) by {
            if documents_records(docs@).contains(v) {
                let i = choose|i: int| 0 <= i < docs@.len() && doc_record(#[trigger] docs@[i]) == v;
                assert(history@[i].key() == v);
            }
            if record_set(history@).contains(v) {
                let i = choose|i: int| 0 <= i < history@.len() && #[trigger] history@[i].key() == v;
                assert(doc_record(docs@[i]) == v);
            }
        }
        assert(documents_records(docs@) =~= record_set(history@));
    }
    docs
}

impl DockerConfig {
    /// The store that a document stands for. Where the document has no
    /// member for the records, the store has no records. What the rest of
    /// the document holds is carried along as it is.
    pub fn from_document(doc: DockerDocument) -> (r: Self)
        ensures
            r@.auths == match doc.auths {
                Some(docs) => documents_as_records(docs@),
                None => Map::empty(),
            },
            r@.passthrough == string_views(doc.rest@).remove(auths_name()),
    {
        let mut auth_configs: SortedMap<AuthConfig> = SortedMap::new();
        assert(record_views(auth_configs@) =~= Map::<Seq<char>, AuthConfigView>::empty());
        match &doc.auths {
            Some(docs) => {
                docs.ordered();
                let n = docs.len();
                let mut i: usize = 0;
                assert(record_views(auth_configs@) =~= documents_as_records(
                    slot_map(docs.slots().take(0)),
                ));
                while i < n
                    invariant
                        n == docs.slots().len(),
                        i <= n,
                        ascending(docs.slots()),
                        record_views(auth_configs@) == documents_as_records(
                            slot_map(docs.slots().take(i as int)),
                        ),
                    decreases n - i,
                {
                    match docs.slot(i) {
                        Some(slot) => {
                            proof {
                                lemma_slot_map_take(docs.slots(), i as int);
                            }
                            let ghost before = auth_configs@;
                            let record = AuthConfig::from_document(&slot.value);
                            auth_configs.insert(slot.name.clone(), record);
                            proof {
                                lemma_map_values_insert(
                                    before,
                                    |r: AuthConfig| r@,
                                    slot.name@,
                                    record,
                                );
                                lemma_map_values_insert(
                                    slot_map(docs.slots().take(i as int)),
                                    |doc: SortedMap<String>| doc_record(doc),
                                    slot.name@,
                                    slot.value,
                                );
                            }
                        },
                        None => {},
                    }
                    i += 1;
                }
                assert(docs.slots().take(n as int) =~= docs.slots());
            },
            None => {},
        }
        DockerConfig::new(auth_configs, doc.rest)
    }

    /// The document that the store is written as. It always has a member for
    /// the records, also where there are none. Each record is written as its
    /// document; the rest is written as it was read.
    pub fn to_document(&self) -> (doc: DockerDocument)
        ensures
            doc.auths is Some,
            document_views(doc.auths->0@) == self@.auths.map_values(
                |r: AuthConfigView| record_document(r),
            ),
            string_views(doc.rest@) == self@.passthrough,
    {
        let ghost written = |r: AuthConfigView| record_document(r);
        let mut docs: SortedMap<SortedMap<String>> = SortedMap::new();
        let auths = &self.auth_configs;
        auths.ordered();
        let n = auths.len();
        let mut i: usize = 0;
        assert(document_views(docs@) =~= record_views(slot_map(auths.slots().take(0))).map_values(
            written,
        ));
        while i < n
            invariant
                n == auths.slots().len(),
                i <= n,
                ascending(auths.slots()),
                written == |r: AuthConfigView| record_document(r),
                document_views(docs@) == record_views(
                    slot_map(auths.slots().take(i as int)),
                ).map_values(written),
            decreases n - i,
        {
            match auths.slot(i) {
                Some(slot) => {
                    proof {
                        lemma_slot_map_take(auths.slots(), i as int);
                    }
                    let ghost before = docs@;
                    let ghost head = slot_map(auths.slots().take(i as int));
                    let written_doc = slot.value.to_document();
                    docs.insert(slot.name.clone(), written_doc);
                    proof {
                        lemma_map_values_insert(
                            before,
                            |doc: SortedMap<String>| string_views(doc@),
                            slot.name@,
                            written_doc,
                        );
                        lemma_map_values_insert(
                            head,
                            |r: AuthConfig| r@,
                            slot.name@,
                            slot.value,
                        );
                        lemma_map_values_insert(
                            record_views(head),
                            written,
                            slot.name@,
                            slot.value@,
                        );
                    }
                },
                None => {},
            }
            i += 1;
        }
        assert(auths.slots().take(n as int) =~= auths.slots());
        DockerDocument { auths: Some(docs), rest: copy_strings(&self.passthrough) }
    }
}

impl DockvaultConfig {
    /// The vault that a document stands for: for each registry the records
    /// that its list of documents stands for. A record that the list holds
    /// twice is in the history once.
    pub fn from_document(doc: &SortedMap<Vec<SortedMap<String>>>) -> (r: Self)
        ensures
            r@ == doc@.map_values(|docs: Vec<SortedMap<String>>| documents_records(docs@)),
    {
        let ghost read = |docs: Vec<SortedMap<String>>| documents_records(docs@);
        let mut data: SortedMap<SortedVec<AuthConfig>> = SortedMap::new();
        doc.ordered();
        let n = doc.len();
        let mut i: usize = 0;
        assert(history_views(data@) =~= slot_map(doc.slots().take(0)).map_values(read));
        while i < n
            invariant
                n == doc.slots().len(),
                i <= n,
                ascending(doc.slots()),
                read == |docs: Vec<SortedMap<String>>| documents_records(docs@),
                history_views(data@) == slot_map(doc.slots().take(i as int)).map_values(read),
            decreases n - i,
        {
            match doc.slot(i) {
                Some(slot) => {
                    proof {
                        lemma_slot_map_take(doc.slots(), i as int);
                    }
                    let ghost before = data@;
                    let history = history_of_documents(&slot.value);
                    data.insert(slot.name.clone(), history);
                    proof {
                        lemma_map_values_insert(
                            before,
                            |h: SortedVec<AuthConfig>| record_set(h@),
                            slot.name@,
                            history,
                        );
                        lemma_map_values_insert(
                            slot_map(doc.slots().take(i as int)),
                            read,
                            slot.name@,
                            slot.value,
                        );
                    }
                },
                None => {},
            }
            i += 1;
        }
        assert(doc.slots().take(n as int) =~= doc.slots());
        DockvaultConfig(data)
    }

    /// The document that the vault is written as: for each registry the
    /// documents of its records, in ascending order of the records.
    pub fn to_document(&self) -> (doc: SortedMap<Vec<SortedMap<String>>>)
        ensures
            doc@.dom() == self@.dom(),
            forall|registry: Seq<char>| #[trigger]
                doc@.contains_key(registry) ==> lists_history(doc@[registry]@, self@[registry]),
    {
        let mut doc: SortedMap<Vec<SortedMap<String>>> = SortedMap::new();
        let data = &self.0;
        data.ordered();
        let n = data.len();
        let mut i: usize = 0;
        assert(doc@.dom() =~= slot_map(data.slots().take(0)).dom());
        while i < n
            invariant
                n == data.slots().len(),
                i <= n,
                ascending(data.slots()),
                doc@.dom() == slot_map(data.slots().take(i as int)).dom(),
                forall|registry: Seq<char>| #[trigger]
                    doc@.contains_key(registry) ==> data@.contains_key(registry) && lists_history(
                        doc@[registry]@,
                        record_set(data@[registry]@),
                    ),
            decreases n - i,
        {
            match data.slot(i) {
                Some(slot) => {
                    proof {
                        lemma_slot_map_take(data.slots(), i as int);
                        lemma_slot_map_at(data.slots(), i as int);
                    }
                    let docs = documents_of_history(&slot.value);
                    doc.insert(slot.name.clone(), docs);
                },
                None => {},
            }
            i += 1;
        }
        assert(data.slots().take(n as int) =~= data.slots());
        assert(doc@.dom() =~= self@.dom());
        doc
    }
}

/// Reads the two stores from their documents and merges the active one into
/// the vault. Returns both: the active store as read, the vault merged.
pub fn parse_and_merge(docker_cfg: DockerDocument, dockvault_cfg: &SortedMap<
    Vec<SortedMap<String>>,
>) -> (r: (DockerConfig, DockvaultConfig))
    ensures
        r.0@.auths == match docker_cfg.auths {
            Some(docs) => documents_as_records(docs@),
            None => Map::empty(),
        },
        r.0@.passthrough == string_views(docker_cfg.rest@).remove(auths_name()),
        r.1@ == merged(
            r.0@.auths,
            dockvault_cfg@.map_values(|docs: Vec<SortedMap<String>>| documents_records(docs@)),
        ),
{
    let active = DockerConfig::from_document(docker_cfg);
    let mut vault = DockvaultConfig::from_document(dockvault_cfg);
    merge(&active, &mut vault);
    (active, vault)
}

} // verus!
