//! Per-source snapshots: the canonical accounts keyed by identifier, and the
//! secondary accounts grouped by identifier across all secondary sources.

use vstd::prelude::*;
use vstd::map::*;
use crate::json::json_parse;
use crate::record::{AccountData, AccountEntry, DecodeError, decodes_to, decode_payload};

verus! {

/// The map that a list of keyed pairs stands for; a later pair of a key
/// replaces an earlier one.
pub open spec fn keyed<V>(s: Seq<(Seq<char>, V)>) -> Map<Seq<char>, V>
    decreases s.len(),
{
    if s.len() == 0 {
        Map::empty()
    } else {
        keyed(s.drop_last()).insert(s.last().0, s.last().1)
    }
}

/// No key occurs twice.
pub open spec fn keys_unique<V>(s: Seq<(Seq<char>, V)>) -> bool {
    forall|i: int, j: int| 0 <= i < j < s.len() ==> s[i].0 != s[j].0
}

pub proof fn lemma_keyed_contains<V>(s: Seq<(Seq<char>, V)>, k: Seq<char>)
    ensures
        keyed(s).contains_key(k) <==> exists|i: int| 0 <= i < s.len() && s[i].0 == k,
    decreases s.len(),
{
    if s.len() > 0 {
        lemma_keyed_contains(s.drop_last(), k);
        if keyed(s.drop_last()).contains_key(k) {
            let i = choose|i: int| 0 <= i < s.drop_last().len() && s.drop_last()[i].0 == k;
            assert(s[i].0 == k);
        }
        if exists|i: int| 0 <= i < s.len() && s[i].0 == k {
            let i = choose|i: int| 0 <= i < s.len() && s[i].0 == k;
            if i < s.len() - 1 {
                assert(s.drop_last()[i].0 == k);
            }
        }
    }
}

pub proof fn lemma_keyed_index<V>(s: Seq<(Seq<char>, V)>, i: int)
    requires
        keys_unique(s),
        0 <= i < s.len(),
    ensures
        keyed(s).contains_key(s[i].0),
        keyed(s)[s[i].0] == s[i].1,
    decreases s.len(),
{
    if i < s.len() - 1 {
        lemma_keyed_index(s.drop_last(), i);
    }
}

pub proof fn lemma_keyed_update<V>(s: Seq<(Seq<char>, V)>, i: int, v: V)
    requires
        keys_unique(s),
        0 <= i < s.len(),
    ensures
        keyed(s.update(i, (s[i].0, v))) == keyed(s).insert(s[i].0, v),
    decreases s.len(),
{
    let t = s.update(i, (s[i].0, v));
    if i == s.len() - 1 {
        assert(t.drop_last() =~= s.drop_last());
        assert_maps_equal!(keyed(t), keyed(s).insert(s[i].0, v));
    } else {
        assert(t.drop_last() =~= s.drop_last().update(i, (s[i].0, v)));
        lemma_keyed_update(s.drop_last(), i, v);
        assert(s.last().0 != s[i].0);
        assert_maps_equal!(keyed(t), keyed(s).insert(s[i].0, v));
    }
}

pub proof fn lemma_keyed_push<V>(s: Seq<(Seq<char>, V)>, k: Seq<char>, v: V)
    ensures
        keyed(s.push((k, v))) == keyed(s).insert(k, v),
{
    assert(s.push((k, v)).drop_last() =~= s);
}

/// An entry as a keyed pair: its identifier and its record.
pub open spec fn entry_pair(e: AccountEntry) -> (Seq<char>, AccountData) {
    (e.account_id@, e.data)
}

/// The accounts of the canonical source, at most one per identifier, in the
/// order their identifiers first appeared.
#[derive(Debug)]
pub struct CanonicalSnapshot {
    pub entries: Vec<AccountEntry>,
}

impl CanonicalSnapshot {
    pub open spec fn pairs(&self) -> Seq<(Seq<char>, AccountData)> {
        self.entries@.map_values(|e: AccountEntry| entry_pair(e))
    }

    /// Identifier to record.
    pub open spec fn view(&self) -> Map<Seq<char>, AccountData> {
        keyed(self.pairs())
    }

    pub open spec fn wf(&self) -> bool {
        keys_unique(self.pairs())
    }

    pub fn new() -> (r: Self)
        ensures
            r.wf(),
            r.view() == Map::<Seq<char>, AccountData>::empty(),
    {
        let r = CanonicalSnapshot { entries: Vec::new() };
        assert(r.pairs() =~= Seq::<(Seq<char>, AccountData)>::empty());
        r
    }

    /// Index of the entry with identifier `id`.
    pub fn find(&self, id: &String) -> (r: Option<usize>)
        requires
            self.wf(),
        ensures
            match r {
                Some(i) => i < self.entries@.len() && self.entries@[i as int].account_id@ == id@,
                None => !self.view().contains_key(id@),
            },
    {
        let mut i: usize = 0;
        while i < self.entries.len()
            invariant
                i <= self.entries@.len(),
                forall|j: int| 0 <= j < i ==> self.entries@[j].account_id@ != id@,
            decreases self.entries@.len() - i,
        {
            if self.entries[i].account_id == *id {
                return Some(i);
            }
            i = i + 1;
        }
        proof {
            lemma_keyed_contains(self.pairs(), id@);
        }
        None
    }

    /// Inserts `e` under its identifier, replacing any entry already there.
    pub fn insert(&mut self, e: AccountEntry)
        requires
            old(self).wf(),
        ensures
            final(self).wf(),
            final(self).view() == old(self).view().insert(e.account_id@, e.data),
    {
        let ghost k = e.account_id@;
        let ghost d = e.data;
        match self.find(&e.account_id) {
            Some(i) => {
                proof {
                    lemma_keyed_update(self.pairs(), i as int, d);
                }
                self.entries.set(i, e);
                assert(self.pairs() =~= old(self).pairs().update(i as int, (k, d)));
            },
            None => {
                proof {
                    lemma_keyed_push(self.pairs(), k, d);
                    lemma_keyed_contains(self.pairs(), k);
                }
                self.entries.push(e);
                assert(self.pairs() =~= old(self).pairs().push((k, d)));
            },
        }
    }
}

/// The record a stored payload contributes to a comparison: a payload that
/// decodes to the regular shape. Other payloads contribute nothing.
pub open spec fn comparable_record(payload: Seq<char>) -> Option<AccountData> {
    match json_parse(payload) {
        Some(v) => crate::record::regular_of(v),
        None => None,
    }
}

/// Whether a stored payload is dropped as undecodable: it is not JSON, or
/// fits neither shape.
pub open spec fn decode_fails(payload: Seq<char>) -> bool {
    match json_parse(payload) {
        Some(v) => decodes_to(v, None),
        None => true,
    }
}

/// The comparable records among `(identifier, payload)` rows, as keyed pairs,
/// in row order.
pub open spec fn accepted_pairs(rows: Seq<(String, String)>) -> Seq<(Seq<char>, AccountData)>
    decreases rows.len(),
{
    if rows.len() == 0 {
        Seq::empty()
    } else {
        let rest = accepted_pairs(rows.drop_last());
        match comparable_record(rows.last().1@) {
            Some(d) => rest.push((rows.last().0@, d)),
            None => rest,
        }
    }
}

/// The entries that the rows of the secondary source `name` give, in row order.
pub open spec fn node_entries(rows: Seq<(String, String)>, name: String) -> Seq<AccountEntry>
    decreases rows.len(),
{
    if rows.len() == 0 {
        Seq::empty()
    } else {
        let rest = node_entries(rows.drop_last(), name);
        match comparable_record(rows.last().1@) {
            Some(d) => rest.push(AccountEntry { account_id: rows.last().0, data: d, node_path: Some(name) }),
            None => rest,
        }
    }
}

/// The identifiers of the rows whose payloads are dropped, in row order.
pub open spec fn failed_ids(rows: Seq<(String, String)>) -> Seq<Seq<char>>
    decreases rows.len(),
{
    if rows.len() == 0 {
        Seq::empty()
    } else if decode_fails(rows.last().1@) {
        failed_ids(rows.drop_last()).push(rows.last().0@)
    } else {
        failed_ids(rows.drop_last())
    }
}

/// Decodes one row into an entry of the given source; a row whose payload is
/// dropped becomes a `DecodeError`, and a special record is left out.
fn decode_row(row: &(String, String), node_path: &Option<String>) -> (r: Result<
    Option<AccountEntry>,
    DecodeError,
>)
    ensures
        match r {
            Ok(Some(e)) => comparable_record(row.1@) == Some(e.data) && e.account_id == row.0
                && e.node_path == *node_path,
            Ok(None) => comparable_record(row.1@) is None && !decode_fails(row.1@),
            Err(d) => comparable_record(row.1@) is None && decode_fails(row.1@) && d.account_id
                == row.0,
        },
{
    match decode_payload(&row.0, row.1.as_str()) {
        Ok(data) => {
            let entry = AccountEntry { account_id: row.0.clone(), data, node_path: node_path.clone() };
            if entry.is_comparable() {
                Ok(Some(entry))
            } else {
                Ok(None)
            }
        },
        Err(e) => Err(e),
    }
}

/// The identifiers that diagnostics name, in order.
pub open spec fn diagnostic_ids(ds: Seq<DecodeError>) -> Seq<Seq<char>> {
    ds.map_values(|d: DecodeError| d.account_id@)
}

/// What loading the canonical source gives: its snapshot, and a diagnostic
/// for each payload that was dropped.
#[derive(Debug)]
pub struct ArchiverLoad {
    pub accounts: CanonicalSnapshot,
    pub diagnostics: Vec<DecodeError>,
}

/// Builds the canonical snapshot from the `(identifier, payload)` rows of the
/// canonical source. Regular records are kept, a later row of an identifier
/// replacing an earlier one; special records are left out; undecodable
/// payloads are reported and skipped.
pub fn load_archiver_accounts(rows: &Vec<(String, String)>) -> (r: ArchiverLoad)
    ensures
        r.accounts.wf(),
        r.accounts.view() == keyed(accepted_pairs(rows@)),
        diagnostic_ids(r.diagnostics@) == failed_ids(rows@),
{
    let mut accounts = CanonicalSnapshot::new();
    let mut diagnostics: Vec<DecodeError> = Vec::new();
    let none: Option<String> = None;
    let mut i: usize = 0;
    while i < rows.len()
        invariant
            i <= rows@.len(),
            none is None,
            accounts.wf(),
            accounts.view() == keyed(accepted_pairs(rows@.subrange(0, i as int))),
            diagnostic_ids(diagnostics@) == failed_ids(
                rows@.subrange(0, i as int),
            ),
        decreases rows@.len() - i,
    {
        let ghost done = rows@.subrange(0, i as int);
        assert(rows@.subrange(0, i + 1).drop_last() =~= done);
        let ghost before = diagnostics@;
        match decode_row(&rows[i], &none) {
            Ok(Some(e)) => {
                proof {
                    lemma_keyed_push(accepted_pairs(done), e.account_id@, e.data);
                }
                accounts.insert(e);
            },
            Ok(None) => {},
            Err(d) => {
                diagnostics.push(d);
                assert(diagnostic_ids(diagnostics@) =~= diagnostic_ids(before).push(rows@[i as int].0@));
            },
        }
        i = i + 1;
    }
    assert(rows@.subrange(0, rows@.len() as int) =~= rows@);
    ArchiverLoad { accounts, diagnostics }
}

/// What loading one secondary source gives: its comparable entries in row
/// order, and a diagnostic for each payload that was dropped.
#[derive(Debug)]
pub struct NodeLoad {
    pub accounts: Vec<AccountEntry>,
    pub diagnostics: Vec<DecodeError>,
}

/// Decodes the `(identifier, payload)` rows of the secondary source named
/// `node_name`. Each regular record becomes an entry tagged with the name;
/// special records are left out; undecodable payloads are reported and skipped.
pub fn load_single_node_accounts(rows: &Vec<(String, String)>, node_name: &String) -> (r: NodeLoad)
    ensures
        r.accounts@ == node_entries(rows@, *node_name),
        diagnostic_ids(r.diagnostics@) == failed_ids(rows@),
{
    let mut accounts: Vec<AccountEntry> = Vec::new();
    let mut diagnostics: Vec<DecodeError> = Vec::new();
    let tag = Some(node_name.clone());
    let mut i: usize = 0;
    while i < rows.len()
        invariant
            i <= rows@.len(),
            tag == Some(*node_name),
            accounts@ == node_entries(rows@.subrange(0, i as int), *node_name),
            diagnostic_ids(diagnostics@) == failed_ids(
                rows@.subrange(0, i as int),
            ),
        decreases rows@.len() - i,
    {
        assert(rows@.subrange(0, i + 1).drop_last() =~= rows@.subrange(0, i as int));
        let ghost before_a = accounts@;
        let ghost before_d = diagnostics@;
        match decode_row(&rows[i], &tag) {
            Ok(Some(e)) => {
                accounts.push(e);
            },
            Ok(None) => {},
            Err(d) => {
                diagnostics.push(d);
                assert(diagnostic_ids(diagnostics@) =~= diagnostic_ids(before_d).push(rows@[i as int].0@));
            },
        }
        i = i + 1;
    }
    assert(rows@.subrange(0, rows@.len() as int) =~= rows@);
    NodeLoad { accounts, diagnostics }
}

/// The secondary entries of one identifier, one per reporting source, in the
/// order the sources were processed.
#[derive(Debug)]
pub struct NodeGroup {
    pub account_id: String,
    pub entries: Vec<AccountEntry>,
}

pub open spec fn group_pair(g: NodeGroup) -> (Seq<char>, Seq<AccountEntry>) {
    (g.account_id@, g.entries@)
}

/// The entries of all secondary sources, grouped by identifier.
#[derive(Debug)]
pub struct SecondarySnapshot {
    pub groups: Vec<NodeGroup>,
}

/// The groups after appending `es`, in order, each to the group of its
/// identifier; a new identifier starts a group of its own.
pub open spec fn grouped(m: Map<Seq<char>, Seq<AccountEntry>>, es: Seq<AccountEntry>) -> Map<
    Seq<char>,
    Seq<AccountEntry>,
>
    decreases es.len(),
{
    if es.len() == 0 {
        m
    } else {
        let g = grouped(m, es.drop_last());
        let e = es.last();
        if g.contains_key(e.account_id@) {
            g.insert(e.account_id@, g[e.account_id@].push(e))
        } else {
            g.insert(e.account_id@, seq![e])
        }
    }
}

impl SecondarySnapshot {
    pub open spec fn pairs(&self) -> Seq<(Seq<char>, Seq<AccountEntry>)> {
        self.groups@.map_values(|g: NodeGroup| group_pair(g))
    }

    /// Identifier to the entries reported for it.
    pub open spec fn view(&self) -> Map<Seq<char>, Seq<AccountEntry>> {
        keyed(self.pairs())
    }

    /// Identifiers are unique, and every group is non-empty and holds entries
    /// of its own identifier only.
    pub open spec fn wf(&self) -> bool {
        &&& keys_unique(self.pairs())
        &&& forall|i: int|
            #![trigger self.groups@[i]]
            0 <= i < self.groups@.len() ==> {
                &&& self.groups@[i].entries@.len() > 0
                &&& forall|j: int|
                    0 <= j < self.groups@[i].entries@.len()
                        ==> #[trigger] self.groups@[i].entries@[j].account_id@
                        == self.groups@[i].account_id@
            }
    }

    pub fn new() -> (r: Self)
        ensures
            r.wf(),
            r.view() == Map::<Seq<char>, Seq<AccountEntry>>::empty(),
    {
        let r = SecondarySnapshot { groups: Vec::new() };
        assert(r.pairs() =~= Seq::<(Seq<char>, Seq<AccountEntry>)>::empty());
        r
    }

    /// Index of the group of identifier `id`.
    pub fn find(&self, id: &String) -> (r: Option<usize>)
        requires
            self.wf(),
        ensures
            match r {
                Some(i) => i < self.groups@.len() && self.groups@[i as int].account_id@ == id@,
                None => !self.view().contains_key(id@),
            },
    {
        let mut i: usize = 0;
        while i < self.groups.len()
            invariant
                i <= self.groups@.len(),
                forall|j: int| 0 <= j < i ==> self.groups@[j].account_id@ != id@,
            decreases self.groups@.len() - i,
        {
            if self.groups[i].account_id == *id {
                return Some(i);
            }
            i = i + 1;
        }
        proof {
            lemma_keyed_contains(self.pairs(), id@);
        }
        None
    }

    /// Appends `e` to the group of its identifier.
    pub fn add(&mut self, e: AccountEntry)
        requires
            old(self).wf(),
        ensures
            final(self).wf(),
            final(self).view() == (if old(self).view().contains_key(e.account_id@) {
                old(self).view().insert(e.account_id@, old(self).view()[e.account_id@].push(e))
            } else {
                old(self).view().insert(e.account_id@, seq![e])
            }),
    {
        let ghost k = e.account_id@;
        match self.find(&e.account_id) {
            Some(i) => {
                proof {
                    lemma_keyed_index(self.pairs(), i as int);
                }
                let mut g = self.groups.remove(i);
                let ghost ge = g.entries@;
                let ghost gid = g.account_id@;
                assert(g == old(self).groups@[i as int]);
                g.entries.push(e);
                proof {
                    lemma_keyed_update(old(self).pairs(), i as int, ge.push(e));
                }
                self.groups.insert(i, g);
                assert(self.groups@ =~= old(self).groups@.update(i as int, self.groups@[i as int]));
                assert(self.pairs() =~= old(self).pairs().update(i as int, (k, ge.push(e))));
                assert forall|a: int|
                    #![trigger self.groups@[a]]
                    0 <= a < self.groups@.len() implies {
                    &&& self.groups@[a].entries@.len() > 0
                    &&& forall|j: int|
                        0 <= j < self.groups@[a].entries@.len()
                            ==> #[trigger] self.groups@[a].entries@[j].account_id@
                            == self.groups@[a].account_id@
                } by {
                    if a != i {
                        assert(self.groups@[a] == old(self).groups@[a]);
                    } else {
                        assert(self.groups@[a].entries@ == ge.push(e));
                        assert(self.groups@[a].account_id@ == gid);
                        assert(gid == k);
                        assert forall|j: int|
                            0 <= j < self.groups@[a].entries@.len() implies
                            #[trigger] self.groups@[a].entries@[j].account_id@
                            == self.groups@[a].account_id@ by {
                            if j < ge.len() {
                                assert(old(self).groups@[a].entries@[j] == ge[j]);
                                assert(old(self).groups@[a].entries@[j].account_id@ == gid);
                                assert(ge.push(e)[j] == ge[j]);
                            } else {
                                assert(ge.push(e)[j] == e);
                            }
                        }
                    }
                }
            },
            None => {
                proof {
                    lemma_keyed_push(self.pairs(), k, seq![e]);
                    lemma_keyed_contains(self.pairs(), k);
                }
                let mut entries: Vec<AccountEntry> = Vec::new();
                let id = e.account_id.clone();
                entries.push(e);
                self.groups.push(NodeGroup { account_id: id, entries });
                assert(self.pairs() =~= old(self).pairs().push((k, seq![e])));
                assert forall|a: int|
                    #![trigger self.groups@[a]]
                    0 <= a < self.groups@.len() implies {
                    &&& self.groups@[a].entries@.len() > 0
                    &&& forall|j: int|
                        0 <= j < self.groups@[a].entries@.len()
                            ==> #[trigger] self.groups@[a].entries@[j].account_id@
                            == self.groups@[a].account_id@
                } by {
                    if a < old(self).groups@.len() {
                        assert(self.groups@[a] == old(self).groups@[a]);
                    }
                }
            },
        }
    }

    /// Appends the entries of one secondary source, in order, each to the
    /// group of its identifier. Nothing already present is replaced.
    pub fn add_node_accounts(&mut self, accounts: Vec<AccountEntry>)
        requires
            old(self).wf(),
        ensures
            final(self).wf(),
            final(self).view() == grouped(old(self).view(), accounts@),
    {
        let ghost start = self.view();
        let ghost all = accounts@;
        assert(all.subrange(0, 0) =~= Seq::<AccountEntry>::empty());
        for e in it: accounts
            invariant
                it.seq() == all,
                self.wf(),
                self.view() == grouped(start, all.subrange(0, it.index() as int)),
        {
            assert(all.subrange(0, it.index() + 1).drop_last() =~= all.subrange(0, it.index() as int));
            self.add(e);
        }
        assert(all.subrange(0, all.len() as int) =~= all);
    }
}

/// The rows read from one secondary source, under the source's name.
#[derive(Debug)]
pub struct NodeRows {
    pub name: String,
    pub rows: Vec<(String, String)>,
}

/// The groups that the given secondary sources give, processed in order.
pub open spec fn secondary_model(sources: Seq<NodeRows>) -> Map<Seq<char>, Seq<AccountEntry>>
    decreases sources.len(),
{
    if sources.len() == 0 {
        Map::empty()
    } else {
        grouped(
            secondary_model(sources.drop_last()),
            node_entries(sources.last().rows@, sources.last().name),
        )
    }
}

/// What loading all secondary sources gives: the merged snapshot and, for
/// each source in order, the number of accounts it contributed and the
/// diagnostics for its dropped payloads.
#[derive(Debug)]
pub struct NodesLoad {
    pub accounts: SecondarySnapshot,
    pub counts: Vec<usize>,
    pub diagnostics: Vec<Vec<DecodeError>>,
}

/// Decodes every secondary source in turn and merges their entries by
/// identifier; entries of one identifier keep the order of their sources.
pub fn load_node_accounts(sources: &Vec<NodeRows>) -> (r: NodesLoad)
    ensures
        r.accounts.wf(),
        r.accounts.view() == secondary_model(sources@),
        r.counts@.len() == sources@.len(),
        r.diagnostics@.len() == sources@.len(),
        forall|j: int|
            0 <= j < sources@.len() ==> r.counts@[j] == node_entries(
                sources@[j].rows@,
                sources@[j].name,
            ).len(),
        forall|j: int|
            0 <= j < sources@.len() ==> diagnostic_ids(#[trigger] r.diagnostics@[j]@) == failed_ids(
                sources@[j].rows@,
            ),
{
    let mut accounts = SecondarySnapshot::new();
    let mut counts: Vec<usize> = Vec::new();
    let mut diagnostics: Vec<Vec<DecodeError>> = Vec::new();
    let mut i: usize = 0;
    while i < sources.len()
        invariant
            i <= sources@.len(),
            accounts.wf(),
            accounts.view() == secondary_model(sources@.subrange(0, i as int)),
            counts@.len() == i,
            diagnostics@.len() == i,
            forall|j: int|
                0 <= j < i ==> counts@[j] == node_entries(sources@[j].rows@, sources@[j].name).len(),
            forall|j: int|
                0 <= j < i ==> diagnostic_ids(#[trigger] diagnostics@[j]@) == failed_ids(
                    sources@[j].rows@,
                ),
        decreases sources@.len() - i,
    {
        assert(sources@.subrange(0, i + 1).drop_last() =~= sources@.subrange(0, i as int));
        let loaded = load_single_node_accounts(&sources[i].rows, &sources[i].name);
        counts.push(loaded.accounts.len());
        accounts.add_node_accounts(loaded.accounts);
        diagnostics.push(loaded.diagnostics);
        i = i + 1;
    }
    assert(sources@.subrange(0, sources@.len() as int) =~= sources@);
    NodesLoad { accounts, counts, diagnostics }
}

} // verus!
