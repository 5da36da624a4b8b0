//! The reconciliation pass: an outer join of the canonical snapshot with the
//! secondary groups, classifying every pairing and counting the outcomes.

use vstd::prelude::*;
use crate::record::{AccountEntry, AccountData, balance_of, nonce_of};
use crate::snapshot::{
    CanonicalSnapshot, SecondarySnapshot, NodeGroup, lemma_keyed_index, lemma_keyed_contains,
};

verus! {

/// How one pairing, or one unpaired entry, came out.
#[derive(Debug, Clone, Copy, PartialEq, Eq, Structural)]
pub enum Classification {
    /// Balance and nonce agree.
    Match,
    /// Balance or nonce differs; the record's flags say which.
    Mismatch,
    /// A canonical account that no secondary source reports.
    OrphanCanonical,
    /// A secondary entry whose account the canonical source lacks.
    OrphanSecondary,
}

/// An entry of the secondary snapshot: a group, and an entry within it.
#[derive(Debug, Clone, Copy, PartialEq, Eq, Structural)]
pub struct SecondaryRef {
    pub group: usize,
    pub entry: usize,
}

/// One classified outcome. `canonical` indexes the canonical snapshot's
/// entries; `secondary` the secondary entry.
#[derive(Debug, Clone, Copy, PartialEq, Eq, Structural)]
pub struct ComparisonRecord {
    pub classification: Classification,
    pub balance_match: bool,
    pub nonce_match: bool,
    pub canonical: Option<usize>,
    pub secondary: Option<SecondaryRef>,
}

/// The outcome of comparing canonical entry `ci` with entry `k` of group `g`.
pub open spec fn paired(ci: int, c: AccountEntry, g: int, k: int, s: AccountEntry) -> ComparisonRecord {
    let b = balance_of(c.data) == balance_of(s.data);
    let n = nonce_of(c.data) == nonce_of(s.data);
    ComparisonRecord {
        classification: if b && n {
            Classification::Match
        } else {
            Classification::Mismatch
        },
        balance_match: b,
        nonce_match: n,
        canonical: Some(ci as usize),
        secondary: Some(SecondaryRef { group: g as usize, entry: k as usize }),
    }
}

pub open spec fn orphan_canonical(ci: int) -> ComparisonRecord {
    ComparisonRecord {
        classification: Classification::OrphanCanonical,
        balance_match: false,
        nonce_match: false,
        canonical: Some(ci as usize),
        secondary: None,
    }
}

pub open spec fn orphan_secondary(g: int, k: int) -> ComparisonRecord {
    ComparisonRecord {
        classification: Classification::OrphanSecondary,
        balance_match: false,
        nonce_match: false,
        canonical: None,
        secondary: Some(SecondaryRef { group: g as usize, entry: k as usize }),
    }
}

/// The group of identifier `id`.
pub open spec fn group_of(groups: Seq<NodeGroup>, id: Seq<char>) -> int {
    choose|g: int| 0 <= g < groups.len() && groups[g].account_id@ == id
}

/// The outcomes for canonical entry `ci`: one per secondary entry of its
/// identifier, or an orphan when there is none.
pub open spec fn canonical_block(cs: Seq<AccountEntry>, ci: int, sec: SecondarySnapshot) -> Seq<
    ComparisonRecord,
> {
    let id = cs[ci].account_id@;
    if sec.view().contains_key(id) {
        let g = group_of(sec.groups@, id);
        Seq::new(
            sec.groups@[g].entries@.len(),
            |k: int| paired(ci, cs[ci], g, k, sec.groups@[g].entries@[k]),
        )
    } else {
        seq![orphan_canonical(ci)]
    }
}

/// The outcomes for the first `n` canonical entries, in entry order.
pub open spec fn canonical_records(cs: Seq<AccountEntry>, n: int, sec: SecondarySnapshot) -> Seq<
    ComparisonRecord,
>
    decreases n,
{
    if n <= 0 {
        Seq::empty()
    } else {
        canonical_records(cs, n - 1, sec) + canonical_block(cs, n - 1, sec)
    }
}

/// The orphan outcomes for group `gi`: one per entry when the canonical
/// snapshot lacks its identifier, else none.
pub open spec fn secondary_block(gs: Seq<NodeGroup>, gi: int, canon: CanonicalSnapshot) -> Seq<
    ComparisonRecord,
> {
    if canon.view().contains_key(gs[gi].account_id@) {
        Seq::empty()
    } else {
        Seq::new(gs[gi].entries@.len(), |k: int| orphan_secondary(gi, k))
    }
}

/// The orphan outcomes for the first `n` groups, in group order.
pub open spec fn secondary_records(gs: Seq<NodeGroup>, n: int, canon: CanonicalSnapshot) -> Seq<
    ComparisonRecord,
>
    decreases n,
{
    if n <= 0 {
        Seq::empty()
    } else {
        secondary_records(gs, n - 1, canon) + secondary_block(gs, n - 1, canon)
    }
}

/// The identifiers of a list of entries, in order.
pub open spec fn ids_of(cs: Seq<AccountEntry>) -> Seq<Seq<char>> {
    cs.map_values(|e: AccountEntry| e.account_id@)
}

/// How many secondary entries identifier `id` has.
pub open spec fn share(id: Seq<char>, sec: Map<Seq<char>, Seq<AccountEntry>>) -> int {
    if sec.contains_key(id) {
        sec[id].len() as int
    } else {
        0
    }
}

/// The sum, over the identifiers `ids` that the secondary side has, of the
/// number of secondary entries of each.
pub open spec fn shared_total(ids: Seq<Seq<char>>, sec: Map<Seq<char>, Seq<AccountEntry>>) -> int
    decreases ids.len(),
{
    if ids.len() == 0 {
        0
    } else {
        shared_total(ids.drop_last(), sec) + share(ids.last(), sec)
    }
}

proof fn lemma_total_remove(s: Seq<Seq<char>>, j: int, sec: Map<Seq<char>, Seq<AccountEntry>>)
    requires
        0 <= j < s.len(),
    ensures
        shared_total(s, sec) == shared_total(s.remove(j), sec) + share(s[j], sec),
    decreases s.len(),
{
    if j == s.len() - 1 {
        assert(s.remove(j) =~= s.drop_last());
    } else {
        assert(s.remove(j).drop_last() =~= s.drop_last().remove(j));
        lemma_total_remove(s.drop_last(), j, sec);
        assert(s.remove(j).last() == s.last());
    }
}

proof fn lemma_total_permutation(
    s1: Seq<Seq<char>>,
    s2: Seq<Seq<char>>,
    sec: Map<Seq<char>, Seq<AccountEntry>>,
)
    requires
        s1.no_duplicates(),
        s2.no_duplicates(),
        forall|x: Seq<char>| s1.contains(x) <==> s2.contains(x),
    ensures
        shared_total(s1, sec) == shared_total(s2, sec),
    decreases s1.len(),
{
    if s1.len() == 0 {
        if s2.len() > 0 {
            assert(s2.contains(s2[0]));
        }
    } else {
        let x = s1.last();
        assert(s1.contains(x)) by {
            assert(s1[s1.len() - 1] == x);
        }
        let j = choose|j: int| 0 <= j < s2.len() && s2[j] == x;
        lemma_total_remove(s2, j, sec);
        let t1 = s1.drop_last();
        let t2 = s2.remove(j);
        assert forall|y: Seq<char>| t1.contains(y) <==> t2.contains(y) by {
            if t1.contains(y) {
                let i = choose|i: int| 0 <= i < t1.len() && t1[i] == y;
                assert(s1[i] == y);
                assert(y != x);
                assert(s1.contains(y));
                let k = choose|k: int| 0 <= k < s2.len() && s2[k] == y;
                if k < j {
                    assert(t2[k] == y);
                } else {
                    assert(k != j);
                    assert(t2[k - 1] == y);
                }
            }
            if t2.contains(y) {
                let k = choose|k: int| 0 <= k < t2.len() && t2[k] == y;
                let k2 = if k < j {
                    k
                } else {
                    k + 1
                };
                assert(s2[k2] == y);
                assert(k2 != j);
                assert(y != x);
                assert(s2.contains(y));
                let i = choose|i: int| 0 <= i < s1.len() && s1[i] == y;
                assert(i != s1.len() - 1);
                assert(t1[i] == y);
            }
        }
        assert(t2.no_duplicates()) by {
            assert forall|a: int, b: int| 0 <= a < t2.len() && 0 <= b < t2.len() && a != b implies t2[a]
                != t2[b] by {
                let a2 = if a < j {
                    a
                } else {
                    a + 1
                };
                let b2 = if b < j {
                    b
                } else {
                    b + 1
                };
                assert(t2[a] == s2[a2]);
                assert(t2[b] == s2[b2]);
            }
        }
        lemma_total_permutation(t1, t2, sec);
    }
}

/// The number of comparisons depends on which identifiers the canonical
/// snapshot holds and on the secondary groups, not on the order of the
/// canonical entries: it is the sum, over the identifiers both sides hold, of
/// the number of secondary entries of each.
pub proof fn law_total_independent_of_order(
    first: CanonicalSnapshot,
    second: CanonicalSnapshot,
    sec: SecondarySnapshot,
)
    requires
        first.wf(),
        second.wf(),
        first.view().dom() == second.view().dom(),
    ensures
        shared_total(ids_of(first.entries@), sec.view()) == shared_total(
            ids_of(second.entries@),
            sec.view(),
        ),
{
    let a = ids_of(first.entries@);
    let b = ids_of(second.entries@);
    assert forall|x: Seq<char>| a.contains(x) <==> b.contains(x) by {
        lemma_keyed_contains(first.pairs(), x);
        lemma_keyed_contains(second.pairs(), x);
        if a.contains(x) {
            let i = choose|i: int| 0 <= i < a.len() && a[i] == x;
            assert(first.pairs()[i].0 == x);
            assert(second.view().contains_key(x));
            let k = choose|k: int| 0 <= k < second.pairs().len() && second.pairs()[k].0 == x;
            assert(b[k] == x);
        }
        if b.contains(x) {
            let i = choose|i: int| 0 <= i < b.len() && b[i] == x;
            assert(second.pairs()[i].0 == x);
            assert(first.view().contains_key(x));
            let k = choose|k: int| 0 <= k < first.pairs().len() && first.pairs()[k].0 == x;
            assert(a[k] == x);
        }
    }
    assert(a.no_duplicates()) by {
        assert forall|i: int, j: int| 0 <= i < a.len() && 0 <= j < a.len() && i != j implies a[i]
            != a[j] by {
            assert(a[i] == first.pairs()[i].0);
            assert(a[j] == first.pairs()[j].0);
        }
    }
    assert(b.no_duplicates()) by {
        assert forall|i: int, j: int| 0 <= i < b.len() && 0 <= j < b.len() && i != j implies b[i]
            != b[j] by {
            assert(b[i] == second.pairs()[i].0);
            assert(b[j] == second.pairs()[j].0);
        }
    }
    lemma_total_permutation(a, b, sec.view());
}

/// The number of outcomes classified `c`.
pub open spec fn count_of(rs: Seq<ComparisonRecord>, c: Classification) -> int
    decreases rs.len(),
{
    if rs.len() == 0 {
        0
    } else {
        count_of(rs.drop_last(), c) + if rs.last().classification == c {
            1int
        } else {
            0
        }
    }
}

/// All outcomes of reconciling `canon` with `sec`: the canonical entries'
/// outcomes, then the secondary orphans.
pub open spec fn all_records(canon: CanonicalSnapshot, sec: SecondarySnapshot) -> Seq<ComparisonRecord> {
    canonical_records(canon.entries@, canon.entries@.len() as int, sec) + secondary_records(
        sec.groups@,
        sec.groups@.len() as int,
        canon,
    )
}

/// The result of one reconciliation pass.
#[derive(Debug)]
pub struct Report {
    pub records: Vec<ComparisonRecord>,
    pub total_comparisons: usize,
    pub mismatches: usize,
}

impl Report {
    /// The report is the one that reconciling `canon` with `sec` gives.
    pub open spec fn describes(&self, canon: CanonicalSnapshot, sec: SecondarySnapshot) -> bool {
        &&& self.records@ == all_records(canon, sec)
        &&& self.total_comparisons == shared_total(ids_of(canon.entries@), sec.view())
        &&& self.mismatches == count_of(self.records@, Classification::Mismatch)
        &&& self.total_comparisons == count_of(self.records@, Classification::Match) + count_of(
            self.records@,
            Classification::Mismatch,
        )
        &&& self.mismatches <= self.total_comparisons
    }

    /// The share of comparisons that matched, in hundredths of a percent
    /// (rounded down): `(total - mismatches) * 10000 / total`, and 0 when
    /// nothing was compared.
    pub fn match_rate_hundredths(&self) -> (r: u64)
        requires
            self.mismatches <= self.total_comparisons,
        ensures
            self.total_comparisons == 0 ==> r == 0,
            self.total_comparisons > 0 ==> r == (self.total_comparisons - self.mismatches) * 10000
                / self.total_comparisons as int,
            r <= 10000,
    {
        if self.total_comparisons == 0 {
            0
        } else {
            let t = self.total_comparisons as u128;
            let matched = (self.total_comparisons - self.mismatches) as u128;
            assert(matched * 10000 <= t * 10000) by (nonlinear_arith)
                requires
                    matched <= t,
            ;
            assert((matched * 10000) as int / (t as int) <= 10000) by (nonlinear_arith)
                requires
                    matched <= t,
                    t > 0,
            ;
            (matched * 10000 / t) as u64
        }
    }
}

/// Reconciliation depends on nothing but its inputs: two passes over the same
/// snapshots give the same outcomes and the same counts.
pub proof fn law_reconcile_repeatable(
    canon: CanonicalSnapshot,
    sec: SecondarySnapshot,
    first: Report,
    second: Report,
)
    requires
        first.describes(canon, sec),
        second.describes(canon, sec),
    ensures
        first.records@ == second.records@,
        first.total_comparisons == second.total_comparisons,
        first.mismatches == second.mismatches,
{
}

/// With no canonical accounts and no secondary accounts nothing is compared,
/// nothing mismatches, and the match rate is 0.
pub proof fn law_empty_reconciliation(canon: CanonicalSnapshot, sec: SecondarySnapshot, r: Report)
    requires
        canon.entries@.len() == 0,
        sec.groups@.len() == 0,
        r.describes(canon, sec),
    ensures
        r.records@.len() == 0,
        r.total_comparisons == 0,
        r.mismatches == 0,
{
    assert(all_records(canon, sec) =~= Seq::<ComparisonRecord>::empty());
}

fn same_balance(a: &AccountEntry, b: &AccountEntry) -> (r: bool)
    ensures
        r == (balance_of(a.data) == balance_of(b.data)),
{
    match (&a.data, &b.data) {
        (AccountData::Regular { account: x, .. }, AccountData::Regular { account: y, .. }) => {
            x.balance.value == y.balance.value
        },
        (AccountData::Special { .. }, AccountData::Special { .. }) => true,
        _ => false,
    }
}

fn pair_record(c: &AccountEntry, ci: usize, g: usize, k: usize, s: &AccountEntry) -> (r: ComparisonRecord)
    ensures
        r == paired(ci as int, *c, g as int, k as int, *s),
{
    let b = same_balance(c, s);
    let n = c.get_nonce() == s.get_nonce();
    ComparisonRecord {
        classification: if b && n {
            Classification::Match
        } else {
            Classification::Mismatch
        },
        balance_match: b,
        nonce_match: n,
        canonical: Some(ci),
        secondary: Some(SecondaryRef { group: g, entry: k }),
    }
}

proof fn lemma_group_of(sec: SecondarySnapshot, i: int)
    requires
        sec.wf(),
        0 <= i < sec.groups@.len(),
    ensures
        sec.view().contains_key(sec.groups@[i].account_id@),
        sec.view()[sec.groups@[i].account_id@] == sec.groups@[i].entries@,
        group_of(sec.groups@, sec.groups@[i].account_id@) == i,
{
    lemma_keyed_index(sec.pairs(), i);
    let id = sec.groups@[i].account_id@;
    let g = group_of(sec.groups@, id);
    assert(sec.pairs()[i].0 == id);
    assert(sec.pairs()[g].0 == id);
}

proof fn lemma_canonical_has(canon: CanonicalSnapshot, i: int)
    requires
        canon.wf(),
        0 <= i < canon.entries@.len(),
    ensures
        canon.view().contains_key(canon.entries@[i].account_id@),
{
    lemma_keyed_index(canon.pairs(), i);
}

/// Reconciles the canonical snapshot with the secondary snapshot in one
/// read-only pass. Each canonical entry is compared with every secondary entry
/// of its identifier (balance and nonce, as exact text), or reported as an
/// orphan when there is none; then every entry of an identifier the canonical
/// side lacks is reported as an orphan. Only comparisons are counted.
pub fn compare_accounts(archiver_accounts: &CanonicalSnapshot, node_accounts: &SecondarySnapshot) -> (r:
    Report)
    requires
        archiver_accounts.wf(),
        node_accounts.wf(),
    ensures
        r.describes(*archiver_accounts, *node_accounts),
{
    let ghost cs = archiver_accounts.entries@;
    let ghost gs = node_accounts.groups@;
    let ghost sec = *node_accounts;
    let ghost canon = *archiver_accounts;
    let mut records: Vec<ComparisonRecord> = Vec::new();
    let mut total_comparisons: usize = 0;
    let mut mismatches: usize = 0;
    let mut i: usize = 0;
    while i < archiver_accounts.entries.len()
        invariant
            i <= cs.len(),
            cs == archiver_accounts.entries@,
            sec == *node_accounts,
            node_accounts.wf(),
            records@ == canonical_records(cs, i as int, sec),
            total_comparisons == shared_total(ids_of(cs).subrange(0, i as int), sec.view()),
            mismatches == count_of(records@, Classification::Mismatch),
            total_comparisons == count_of(records@, Classification::Match) + count_of(
                records@,
                Classification::Mismatch,
            ),
            mismatches <= total_comparisons <= records@.len(),
        decreases cs.len() - i,
    {
        let c = &archiver_accounts.entries[i];
        let ghost done = records@;
        assert(ids_of(cs).subrange(0, i + 1).drop_last() =~= ids_of(cs).subrange(0, i as int));
        match node_accounts.find(&c.account_id) {
            Some(g) => {
                proof {
                    lemma_group_of(sec, g as int);
                }
                let group = &node_accounts.groups[g];
                let mut k: usize = 0;
                while k < group.entries.len()
                    invariant
                        i < cs.len(),
                        *c == cs[i as int],
                        k <= group.entries@.len(),
                        records@ == done + Seq::new(
                            k as nat,
                            |j: int| paired(i as int, cs[i as int], g as int, j, group.entries@[j]),
                        ),
                        total_comparisons == shared_total(ids_of(cs).subrange(0, i as int), sec.view())
                            + k,
                        mismatches == count_of(records@, Classification::Mismatch),
                        total_comparisons == count_of(records@, Classification::Match) + count_of(
                            records@,
                            Classification::Mismatch,
                        ),
                        mismatches <= total_comparisons <= records@.len(),
                    decreases group.entries@.len() - k,
                {
                    let rec = pair_record(c, i, g, k, &group.entries[k]);
                    assert(rec == paired(i as int, cs[i as int], g as int, k as int, group.entries@[k as int]));
                    let ghost prev = records@;
                    records.push(rec);
                    assert(records@.drop_last() == prev);
                    let _ = records.len();
                    total_comparisons = total_comparisons + 1;
                    if matches!(rec.classification, Classification::Mismatch) {
                        mismatches = mismatches + 1;
                    }
                    k = k + 1;
                    assert(records@ =~= done + Seq::new(
                        k as nat,
                        |j: int| paired(i as int, cs[i as int], g as int, j, group.entries@[j]),
                    ));
                }
                assert(canonical_block(cs, i as int, sec) =~= Seq::new(
                    k as nat,
                    |j: int| paired(i as int, cs[i as int], g as int, j, group.entries@[j]),
                ));
            },
            None => {
                let rec = ComparisonRecord {
                    classification: Classification::OrphanCanonical,
                    balance_match: false,
                    nonce_match: false,
                    canonical: Some(i),
                    secondary: None,
                };
                records.push(rec);
                assert(records@.drop_last() == done);
                let _ = records.len();
                assert(records@ =~= done + canonical_block(cs, i as int, sec));
            },
        }
        i = i + 1;
    }
    assert(ids_of(cs).subrange(0, cs.len() as int) =~= ids_of(cs));
    let ghost canon_part = records@;
    let mut g: usize = 0;
    while g < node_accounts.groups.len()
        invariant
            g <= gs.len(),
            gs == node_accounts.groups@,
            canon == *archiver_accounts,
            archiver_accounts.wf(),
            records@ == canon_part + secondary_records(gs, g as int, canon),
            mismatches == count_of(records@, Classification::Mismatch),
            total_comparisons == count_of(records@, Classification::Match) + count_of(
                records@,
                Classification::Mismatch,
            ),
            mismatches <= total_comparisons,
        decreases gs.len() - g,
    {
        let group = &node_accounts.groups[g];
        let ghost done = records@;
        match archiver_accounts.find(&group.account_id) {
            Some(ci) => {
                proof {
                    lemma_canonical_has(canon, ci as int);
                }
                assert(secondary_block(gs, g as int, canon) =~= Seq::<ComparisonRecord>::empty());
                assert(records@ =~= canon_part + secondary_records(gs, g as int + 1, canon));
            },
            None => {
                let mut k: usize = 0;
                while k < group.entries.len()
                    invariant
                        k <= group.entries@.len(),
                        records@ == done + Seq::new(k as nat, |j: int| orphan_secondary(g as int, j)),
                        mismatches == count_of(records@, Classification::Mismatch),
                        total_comparisons == count_of(records@, Classification::Match) + count_of(
                            records@,
                            Classification::Mismatch,
                        ),
                    decreases group.entries@.len() - k,
                {
                    let ghost prev = records@;
                    records.push(
                        ComparisonRecord {
                            classification: Classification::OrphanSecondary,
                            balance_match: false,
                            nonce_match: false,
                            canonical: None,
                            secondary: Some(SecondaryRef { group: g, entry: k }),
                        },
                    );
                    assert(records@.drop_last() == prev);
                    k = k + 1;
                    assert(records@ =~= done + Seq::new(k as nat, |j: int| orphan_secondary(g as int, j)));
                }
                assert(secondary_block(gs, g as int, canon) =~= Seq::new(
                    k as nat,
                    |j: int| orphan_secondary(g as int, j),
                ));
                assert(records@ =~= canon_part + secondary_records(gs, g as int + 1, canon));
            },
        }
        g = g + 1;
    }
    Report { records, total_comparisons, mismatches }
}

} // verus!
