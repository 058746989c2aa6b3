//! Changesets: the changes to release together, grouped into one release per
//! package.

use vstd::prelude::*;
use crate::text::{
    str_lt, str_le, string_lt, lemma_str_lt_transitive, lemma_str_lt_total, lemma_str_lt_irreflexive,
    lemma_str_lt_asymmetric,
};
use crate::versioning::{
    ChangeType, ChangeKind, PackageName, entries_view, entry_view, rank, sorted_names,
    lemma_sorted_no_duplicates, names_of,
};
use crate::change::{Change, ChangeView, UniqueId};

verus! {

/// A [`Change`] as it applies to a single package of a [`Release`].
#[derive(Clone, Debug, Eq, PartialEq)]
pub struct PackageChange {
    /// The ID of the change.
    pub unique_id: UniqueId,
    /// The type of the change, which decides how the version is bumped.
    pub change_type: ChangeType,
    /// The details of the change, as Markdown.
    pub summary: String,
}

/// A package change as plain values.
pub struct PackageChangeView {
    pub unique_id: Seq<char>,
    pub change_type: ChangeKind,
    pub summary: Seq<char>,
}

impl View for PackageChange {
    type V = PackageChangeView;

    open spec fn view(&self) -> PackageChangeView {
        PackageChangeView {
            unique_id: self.unique_id@,
            change_type: self.change_type@,
            summary: self.summary@,
        }
    }
}

/// Package changes as plain values.
pub open spec fn changes_view(v: Seq<PackageChange>) -> Seq<PackageChangeView> {
    v.map_values(|c: PackageChange| c@)
}

/// The changes of a [`ChangeSet`] that apply to one package.
#[derive(Clone, Debug, Eq, PartialEq)]
pub struct Release {
    /// The package.
    pub package_name: PackageName,
    /// Its changes, in order of unique id.
    pub changes: Vec<PackageChange>,
}

/// A release as plain values: the package's name and its changes.
pub struct ReleaseView {
    pub package_name: Seq<char>,
    pub changes: Seq<PackageChangeView>,
}

impl View for Release {
    type V = ReleaseView;

    open spec fn view(&self) -> ReleaseView {
        ReleaseView { package_name: self.package_name@, changes: changes_view(self.changes@) }
    }
}

/// Releases as plain values.
pub open spec fn releases_view(v: Seq<Release>) -> Seq<ReleaseView> {
    v.map_values(|r: Release| r@)
}

/// The package change that a change makes for its versioning entry `e`.
pub open spec fn package_change_of(c: ChangeView, e: (Seq<char>, ChangeKind)) -> PackageChangeView {
    PackageChangeView { unique_id: c.unique_id, change_type: e.1, summary: c.summary }
}

/// The `(package, package change)` entries of one change, in the order of its
/// versioning.
pub open spec fn entries_of_change(c: ChangeView) -> Seq<(Seq<char>, PackageChangeView)> {
    c.versioning.map_values(|e: (Seq<char>, ChangeKind)| (e.0, package_change_of(c, e)))
}

/// The `(package, package change)` entries of changes, change after change.
pub open spec fn package_entries(cs: Seq<ChangeView>) -> Seq<(Seq<char>, PackageChangeView)>
    decreases cs.len(),
{
    if cs.len() == 0 {
        seq![]
    } else {
        package_entries(cs.drop_last()) + entries_of_change(cs.last())
    }
}

/// The packages that the entries name, each once, in the order in which they
/// are first named.
pub open spec fn release_names(es: Seq<(Seq<char>, PackageChangeView)>) -> Seq<Seq<char>>
    decreases es.len(),
{
    if es.len() == 0 {
        seq![]
    } else {
        let r = release_names(es.drop_last());
        if r.contains(es.last().0) {
            r
        } else {
            r.push(es.last().0)
        }
    }
}

/// The package changes of the entries that name package `n`, in order.
pub open spec fn changes_for(es: Seq<(Seq<char>, PackageChangeView)>, n: Seq<char>) -> Seq<PackageChangeView>
    decreases es.len(),
{
    if es.len() == 0 {
        seq![]
    } else {
        let r = changes_for(es.drop_last(), n);
        if es.last().0 == n {
            r.push(es.last().1)
        } else {
            r
        }
    }
}

/// `x` put into `s` after every change whose id does not come after its own.
pub open spec fn insert_by_id(s: Seq<PackageChangeView>, x: PackageChangeView) -> Seq<PackageChangeView>
    decreases s.len(),
{
    if s.len() == 0 {
        seq![x]
    } else if str_lt(x.unique_id, s[0].unique_id) {
        seq![x] + s
    } else {
        seq![s[0]] + insert_by_id(s.drop_first(), x)
    }
}

/// The changes, stably sorted by unique id: changes with equal ids keep their order.
pub open spec fn sort_by_id(s: Seq<PackageChangeView>) -> Seq<PackageChangeView>
    decreases s.len(),
{
    if s.len() == 0 {
        seq![]
    } else {
        insert_by_id(sort_by_id(s.drop_last()), s.last())
    }
}

/// The releases that entries make: one per package, in the order in which the
/// packages are first named, each with the package's changes sorted by id.
pub open spec fn group_releases(es: Seq<(Seq<char>, PackageChangeView)>) -> Seq<ReleaseView> {
    release_names(es).map_values(
        |n: Seq<char>| ReleaseView { package_name: n, changes: sort_by_id(changes_for(es, n)) },
    )
}

/// A set of [`Change`]s that together make [`Release`]s of one or more packages.
#[derive(Clone, Debug, Eq, PartialEq)]
pub struct ChangeSet {
    releases: Vec<Release>,
}

impl View for ChangeSet {
    type V = Seq<ReleaseView>;

    closed spec fn view(&self) -> Seq<ReleaseView> {
        releases_view(self.releases@)
    }
}


/// Inserting by id puts `x` before the first change whose id comes after its own.
pub proof fn lemma_insert_by_id_at(s: Seq<PackageChangeView>, x: PackageChangeView, p: int)
    requires
        0 <= p <= s.len(),
        forall|i: int| 0 <= i < p ==> !str_lt(x.unique_id, #[trigger] s[i].unique_id),
        p == s.len() || str_lt(x.unique_id, s[p].unique_id),
    ensures
        insert_by_id(s, x) == s.insert(p, x),
    decreases s.len(),
{
    if s.len() == 0 {
        assert(s.insert(p, x) =~= seq![x]);
    } else if p == 0 {
        assert(s.insert(p, x) =~= seq![x] + s);
    } else {
        assert(!str_lt(x.unique_id, s[0].unique_id));
        assert forall|i: int| 0 <= i < p - 1 implies !str_lt(x.unique_id, #[trigger] s.drop_first()[i].unique_id) by {
            assert(s.drop_first()[i] == s[i + 1]);
        }
        lemma_insert_by_id_at(s.drop_first(), x, p - 1);
        assert(s.insert(p, x) =~= seq![s[0]] + s.drop_first().insert(p - 1, x));
    }
}

/// A package is a release name exactly when some entry names it.
pub proof fn lemma_release_names_contains(es: Seq<(Seq<char>, PackageChangeView)>, n: Seq<char>)
    ensures
        release_names(es).contains(n) <==> changes_for(es, n).len() > 0,
    decreases es.len(),
{
    if es.len() > 0 {
        lemma_release_names_contains(es.drop_last(), n);
        let r = release_names(es.drop_last());
        if !r.contains(es.last().0) {
            if r.push(es.last().0).contains(n) && es.last().0 != n {
                let i = choose|i: int| 0 <= i < r.push(es.last().0).len() && r.push(es.last().0)[i] == n;
                assert(r[i] == n);
            }
            if es.last().0 == n {
                assert(r.push(es.last().0)[r.len() as int] == n);
            }
            if r.contains(n) {
                let i = choose|i: int| 0 <= i < r.len() && r[i] == n;
                assert(r.push(es.last().0)[i] == n);
            }
        }
    }
}

/// No package is a release name twice.
pub proof fn lemma_release_names_no_duplicates(es: Seq<(Seq<char>, PackageChangeView)>)
    ensures
        release_names(es).no_duplicates(),
    decreases es.len(),
{
    if es.len() > 0 {
        lemma_release_names_no_duplicates(es.drop_last());
    }
}

/// What one more entry does to the releases.
pub proof fn lemma_group_push(es: Seq<(Seq<char>, PackageChangeView)>, e: (Seq<char>, PackageChangeView))
    ensures
        ({
            let g = group_releases(es);
            let g2 = group_releases(es.push(e));
            let names = release_names(es);
            if names.contains(e.0) {
                forall|i: int|
                    0 <= i < names.len() && names[i] == e.0 ==> g2 == g.update(
                        i,
                        ReleaseView {
                            package_name: e.0,
                            changes: insert_by_id(g[i].changes, e.1),
                        },
                    )
            } else {
                g2 == g.push(ReleaseView { package_name: e.0, changes: seq![e.1] })
            }
        }),
{
    let es2 = es.push(e);
    assert(es2.drop_last() =~= es);
    let names = release_names(es);
    let g = group_releases(es);
    let g2 = group_releases(es2);
    lemma_release_names_no_duplicates(es);
    if names.contains(e.0) {
        assert forall|i: int|
            0 <= i < names.len() && names[i] == e.0 implies g2 == g.update(
                i,
                ReleaseView { package_name: e.0, changes: insert_by_id(g[i].changes, e.1) },
            ) by {
            assert(release_names(es2) == names);
            assert(changes_for(es2, e.0) == changes_for(es, e.0).push(e.1));
            let s = changes_for(es, e.0);
            assert(s.push(e.1).drop_last() =~= s);
            assert(sort_by_id(s.push(e.1)) == insert_by_id(sort_by_id(s), e.1));
            assert(g2 =~= g.update(
                i,
                ReleaseView { package_name: e.0, changes: insert_by_id(g[i].changes, e.1) },
            )) by {
                assert forall|j: int| 0 <= j < g2.len() implies g2[j] == g.update(
                    i,
                    ReleaseView { package_name: e.0, changes: insert_by_id(g[i].changes, e.1) },
                )[j] by {
                    if j != i {
                        assert(names[j] != e.0);
                        assert(changes_for(es2, names[j]) == changes_for(es, names[j]));
                    }
                }
            }
        }
    } else {
        lemma_release_names_contains(es, e.0);
        assert(release_names(es2) == names.push(e.0));
        assert(changes_for(es, e.0) =~= Seq::<PackageChangeView>::empty());
        let s = changes_for(es, e.0);
        assert(changes_for(es2, e.0) == s.push(e.1));
        assert(s.push(e.1).drop_last() =~= s);
        assert(sort_by_id(s.push(e.1)) == insert_by_id(sort_by_id(s), e.1));
        assert(insert_by_id(seq![], e.1) == seq![e.1]);
        assert(g2 =~= g.push(ReleaseView { package_name: e.0, changes: seq![e.1] })) by {
            assert forall|j: int| 0 <= j < g2.len() implies g2[j] == g.push(
                ReleaseView { package_name: e.0, changes: seq![e.1] },
            )[j] by {
                if j < names.len() {
                    assert(names[j] != e.0) by {
                        if names[j] == e.0 {
                            assert(names.contains(e.0));
                        }
                    }
                    assert(changes_for(es2, names[j]) == changes_for(es, names[j]));
                }
            }
        }
    }
}

/// Puts `pc` into changes kept in order of unique id, after every change
/// whose id does not come after its own.
fn insert_change(changes: &mut Vec<PackageChange>, pc: PackageChange)
    ensures
        changes_view(final(changes)@) == insert_by_id(changes_view(old(changes)@), pc@),
{
    let ghost s = changes_view(changes@);
    let mut p: usize = 0;
    while p < changes.len() && !string_lt(pc.unique_id.as_str(), changes[p].unique_id.as_str())
        invariant
            p <= changes@.len(),
            s == changes_view(changes@),
            forall|i: int| 0 <= i < p ==> !str_lt(pc@.unique_id, #[trigger] s[i].unique_id),
        decreases changes@.len() - p,
    {
        p = p + 1;
    }
    let ghost x = pc@;
    proof {
        lemma_insert_by_id_at(s, x, p as int);
    }
    changes.insert(p, pc);
    assert(changes_view(changes@) =~= s.insert(p as int, x));
}

/// Adds the change `pc` of package `name` to the releases that the entries
/// `es` make.
fn add_entry(
    releases: &mut Vec<Release>,
    name: PackageName,
    pc: PackageChange,
    Ghost(es): Ghost<Seq<(Seq<char>, PackageChangeView)>>,
)
    requires
        releases_view(old(releases)@) == group_releases(es),
    ensures
        releases_view(final(releases)@) == group_releases(es.push((name@, pc@))),
{
    let ghost e = (name@, pc@);
    let ghost g = group_releases(es);
    let ghost names = release_names(es);
    proof {
        lemma_group_push(es, e);
    }
    let mut k: usize = 0;
    assert(releases_view(releases@).len() == releases@.len());
    while k < releases.len() && releases[k].package_name != name
        invariant
            k <= releases@.len(),
            releases@.len() == names.len(),
            releases_view(releases@) == g,
            g == group_releases(es),
            names == release_names(es),
            forall|i: int| 0 <= i < k ==> names[i] != name@,
        decreases releases@.len() - k,
    {
        assert(releases_view(releases@)[k as int].package_name == names[k as int]);
        k = k + 1;
    }
    if k < releases.len() {
        assert(releases_view(releases@)[k as int].package_name == names[k as int]);
        assert(names.contains(name@));
        let mut r = releases.remove(k);
        let ghost rv = r@;
        assert(rv == g[k as int]);
        insert_change(&mut r.changes, pc);
        let ghost nr = r@;
        releases.insert(k, r);
        assert(releases_view(releases@) =~= g.update(k as int, nr));
    } else {
        assert(!names.contains(name@)) by {
            if names.contains(name@) {
                let i = choose|i: int| 0 <= i < names.len() && names[i] == name@;
                assert(names.len() == releases@.len());
            }
        }
        let ghost pv = pc@;
        let mut changes: Vec<PackageChange> = Vec::new();
        changes.push(pc);
        assert(changes_view(changes@) =~= seq![pv]);
        let r = Release { package_name: name, changes };
        let ghost nr = r@;
        releases.push(r);
        assert(releases_view(releases@) =~= g.push(nr));
    }
}

impl ChangeSet {
    /// Groups changes into releases: one per package, in the order in which
    /// the changes (and, within a change, its versioning) first name the
    /// packages; each holds the package's changes, stably sorted by unique id.
    pub fn from_changes(changes: Vec<Change>) -> (r: ChangeSet)
        ensures
            r@ == group_releases(package_entries(changes@.map_values(|c: Change| c@))),
    {
        let ghost cs = changes@.map_values(|c: Change| c@);
        let mut releases: Vec<Release> = Vec::new();
        let mut rest = changes;
        let mut i: usize = 0;
        let n = rest.len();
        assert(cs.len() == n);
        assert(cs.take(0) =~= Seq::<ChangeView>::empty());
        assert(group_releases(package_entries(cs.take(0))) =~= Seq::<ReleaseView>::empty());
        while rest.len() > 0
            invariant
                i + rest@.len() == cs.len(),
                cs.len() <= usize::MAX,
                forall|j: int| 0 <= j < rest@.len() ==> (#[trigger] rest@[j])@ == cs[i + j],
                releases_view(releases@) == group_releases(package_entries(cs.take(i as int))),
            decreases rest@.len(),
        {
            let change = rest.remove(0);
            let ghost c = change@;
            assert(c == cs[i as int]);
            let Change { unique_id, versioning, summary } = change;
            let mut entries = versioning.into_entries();
            let ghost before = package_entries(cs.take(i as int));
            let ghost mine = entries_of_change(c);
            let mut j: usize = 0;
            let m = entries.len();
            assert(entries_view(entries@).len() == m);
            assert(mine.take(0) =~= Seq::<(Seq<char>, PackageChangeView)>::empty());
            assert(before + mine.take(0) =~= before);
            while entries.len() > 0
                invariant
                    j + entries@.len() == c.versioning.len(),
                    c.versioning.len() <= usize::MAX,
                    mine == entries_of_change(c),
                    c.unique_id == unique_id@,
                    c.summary == summary@,
                    forall|t: int| 0 <= t < entries@.len() ==> entry_view(#[trigger] entries@[t]) == c.versioning[j + t],
                    releases_view(releases@) == group_releases(before + mine.take(j as int)),
                decreases entries@.len(),
            {
                let (name, kind) = entries.remove(0);
                assert(entry_view((name, kind)) == c.versioning[j as int]);
                let pc = PackageChange { unique_id: unique_id.clone(), change_type: kind, summary: summary.clone() };
                let ghost prefix = before + mine.take(j as int);
                add_entry(&mut releases, name, pc, Ghost(prefix));
                assert(prefix.push(mine[j as int]) =~= before + mine.take(j + 1));
                j = j + 1;
            }
            assert(mine.take(j as int) =~= mine);
            assert(cs.take(i + 1).drop_last() =~= cs.take(i as int));
            i = i + 1;
        }
        assert(cs.take(i as int) =~= cs);
        ChangeSet { releases }
    }

    /// The releases, one per package.
    pub fn releases(&self) -> (r: &[Release])
        ensures
            releases_view(r@) == self@,
    {
        self.releases.as_slice()
    }

    /// The releases, one per package.
    pub fn into_releases(self) -> (r: Vec<Release>)
        ensures
            releases_view(r@) == self@,
    {
        self.releases
    }
}

/// The position of the change with the highest change type; of several, the last.
pub open spec fn top_index(s: Seq<PackageChangeView>) -> int
    decreases s.len(),
{
    if s.len() <= 1 {
        0
    } else {
        let j = top_index(s.drop_last());
        if rank(s.last().change_type) >= rank(s[j].change_type) {
            s.len() - 1
        } else {
            j
        }
    }
}

impl Release {
    /// The change type of the release as a whole: the highest change type of
    /// its changes (of several equal ones, the last); `None` when it has no changes.
    pub fn change_type(&self) -> (r: Option<&ChangeType>)
        ensures
            r is None <==> self.changes@.len() == 0,
            r matches Some(t) ==> t@ == changes_view(self.changes@)[top_index(changes_view(self.changes@))].change_type,
    {
        let ghost s = changes_view(self.changes@);
        if self.changes.len() == 0 {
            return None;
        }
        let mut best: usize = 0;
        let mut i: usize = 1;
        while i < self.changes.len()
            invariant
                1 <= i <= self.changes@.len(),
                s == changes_view(self.changes@),
                best < i,
                best == top_index(s.take(i as int)),
            decreases self.changes@.len() - i,
        {
            assert(s.take(i + 1).drop_last() =~= s.take(i as int));
            assert(s.take(i + 1)[best as int] == s[best as int]);
            if self.changes[i].change_type.rank() >= self.changes[best].change_type.rank() {
                best = i;
            }
            i = i + 1;
        }
        assert(s.take(i as int) =~= s);
        Some(&self.changes[best].change_type)
    }
}

/// The change type of a release is at least that of each of its changes, and
/// above that of every change after it.
pub proof fn lemma_top_index_highest(s: Seq<PackageChangeView>)
    requires
        s.len() > 0,
    ensures
        0 <= top_index(s) < s.len(),
        forall|i: int| 0 <= i < s.len() ==> rank(#[trigger] s[i].change_type) <= rank(s[top_index(s)].change_type),
        forall|i: int| top_index(s) < i < s.len() ==> rank(#[trigger] s[i].change_type) < rank(s[top_index(s)].change_type),
    decreases s.len(),
{
    if s.len() > 1 {
        let t = s.drop_last();
        lemma_top_index_highest(t);
        assert forall|i: int| 0 <= i < s.len() - 1 implies #[trigger] s[i] == t[i] by {}
    }
}

impl From<ChangeSet> for Vec<Release> {
    fn from(value: ChangeSet) -> (r: Vec<Release>)
        ensures
            releases_view(r@) == value@,
    {
        value.releases
    }
}

impl vstd::std_specs::convert::FromSpecImpl<ChangeSet> for Vec<Release> {
    open spec fn obeys_from_spec() -> bool {
        true
    }

    closed spec fn from_spec(value: ChangeSet) -> Vec<Release> {
        value.releases
    }
}

/// The changes are in order of unique id.
pub open spec fn sorted_by_id(s: Seq<PackageChangeView>) -> bool {
    forall|i: int, j: int| 0 <= i < j < s.len() ==> str_le(#[trigger] s[i].unique_id, #[trigger] s[j].unique_id)
}

/// `str_le` is transitive.
proof fn lemma_str_le_transitive(a: Seq<char>, b: Seq<char>, c: Seq<char>)
    requires
        str_le(a, b),
        str_le(b, c),
    ensures
        str_le(a, c),
{
    if str_lt(a, b) && str_lt(b, c) {
        lemma_str_lt_transitive(a, b, c);
    }
}

/// Inserting by id keeps the changes in order and adds `x` to them.
pub proof fn lemma_insert_by_id(s: Seq<PackageChangeView>, x: PackageChangeView)
    ensures
        insert_by_id(s, x).to_multiset() =~= s.to_multiset().insert(x),
        sorted_by_id(s) ==> sorted_by_id(insert_by_id(s, x)),
    decreases s.len(),
{
    broadcast use vstd::seq_lib::group_to_multiset_ensures;
    if s.len() == 0 {
        assert(seq![x] =~= Seq::<PackageChangeView>::empty().push(x));
    } else {
        let r = insert_by_id(s, x);
        assert(s =~= seq![s[0]] + s.drop_first());
        vstd::seq_lib::lemma_multiset_commutative(seq![s[0]], s.drop_first());
        assert(seq![s[0]] =~= Seq::<PackageChangeView>::empty().push(s[0]));
        assert(seq![x] =~= Seq::<PackageChangeView>::empty().push(x));
        if str_lt(x.unique_id, s[0].unique_id) {
            vstd::seq_lib::lemma_multiset_commutative(seq![x], s);
            if sorted_by_id(s) {
                assert forall|i: int, j: int| 0 <= i < j < r.len() implies str_le(#[trigger] r[i].unique_id, #[trigger] r[j].unique_id) by {
                    if i == 0 {
                        assert(r[j] == s[j - 1]);
                        if j - 1 > 0 {
                            assert(str_le(s[0].unique_id, s[j - 1].unique_id));
                        }
                        lemma_str_le_transitive(x.unique_id, s[0].unique_id, s[j - 1].unique_id);
                    } else {
                        assert(r[i] == s[i - 1]);
                        assert(r[j] == s[j - 1]);
                    }
                }
            }
        } else {
            let t = s.drop_first();
            lemma_insert_by_id(t, x);
            let it = insert_by_id(t, x);
            vstd::seq_lib::lemma_multiset_commutative(seq![s[0]], it);
            if sorted_by_id(s) {
                lemma_str_lt_total(x.unique_id, s[0].unique_id);
                assert(str_le(s[0].unique_id, x.unique_id));
                assert(sorted_by_id(t)) by {
                    assert forall|i: int, j: int| 0 <= i < j < t.len() implies str_le(#[trigger] t[i].unique_id, #[trigger] t[j].unique_id) by {
                        assert(t[i] == s[i + 1]);
                        assert(t[j] == s[j + 1]);
                    }
                }
                assert forall|k: int| 0 <= k < it.len() implies str_le(s[0].unique_id, #[trigger] it[k].unique_id) by {
                    assert(it.to_multiset().count(it[k]) > 0);
                    assert(it.contains(it[k]));
                    if it[k] != x {
                        assert(t.to_multiset().count(it[k]) > 0);
                        assert(t.contains(it[k]));
                        let m = choose|m: int| 0 <= m < t.len() && t[m] == it[k];
                        assert(t[m] == s[m + 1]);
                        assert(str_le(s[0].unique_id, s[m + 1].unique_id));
                    }
                }
                assert forall|i: int, j: int| 0 <= i < j < r.len() implies str_le(#[trigger] r[i].unique_id, #[trigger] r[j].unique_id) by {
                    if i == 0 {
                        assert(r[j] == it[j - 1]);
                    } else {
                        assert(r[i] == it[i - 1]);
                        assert(r[j] == it[j - 1]);
                    }
                }
            }
        }
    }
}

/// Sorting by id keeps every change and puts them in order of unique id.
pub proof fn lemma_sort_by_id(s: Seq<PackageChangeView>)
    ensures
        sort_by_id(s).to_multiset() =~= s.to_multiset(),
        sorted_by_id(sort_by_id(s)),
    decreases s.len(),
{
    broadcast use vstd::seq_lib::group_to_multiset_ensures;
    if s.len() > 0 {
        lemma_sort_by_id(s.drop_last());
        lemma_insert_by_id(sort_by_id(s.drop_last()), s.last());
        assert(s =~= s.drop_last().push(s.last()));
    }
}

/// The changes for package `n` are those of the entries that name `n`.
pub proof fn lemma_changes_for(es: Seq<(Seq<char>, PackageChangeView)>, n: Seq<char>, c: PackageChangeView)
    ensures
        changes_for(es, n).contains(c) <==> es.contains((n, c)),
    decreases es.len(),
{
    if es.len() > 0 {
        let t = es.drop_last();
        lemma_changes_for(t, n, c);
        let r = changes_for(t, n);
        if es.contains((n, c)) {
            let j = choose|j: int| 0 <= j < es.len() && es[j] == (n, c);
            if j < es.len() - 1 {
                assert(t[j] == (n, c));
                if es.last().0 == n {
                    let k = choose|k: int| 0 <= k < r.len() && r[k] == c;
                    assert(r.push(es.last().1)[k] == c);
                }
            } else {
                assert(r.push(es.last().1)[r.len() as int] == c);
            }
        }
        if changes_for(es, n).contains(c) {
            if es.last().0 == n && es.last().1 == c {
                assert(es[es.len() - 1] == (n, c));
            } else {
                if es.last().0 == n {
                    let k = choose|k: int| 0 <= k < r.push(es.last().1).len() && r.push(es.last().1)[k] == c;
                    assert(k < r.len());
                    assert(r[k] == c);
                }
                let j = choose|j: int| 0 <= j < t.len() && t[j] == (n, c);
                assert(es[j] == (n, c));
            }
        }
    }
}

/// Grouping entries into releases loses and invents nothing: there is one
/// release per package that an entry names and none for any other package,
/// and each release holds exactly the changes of the entries that name its
/// package, in order of unique id, changes with the same id in the order of
/// the entries.
pub proof fn lemma_group_releases(es: Seq<(Seq<char>, PackageChangeView)>)
    ensures
        forall|i: int, j: int|
            0 <= i < j < group_releases(es).len() ==> (#[trigger] group_releases(es)[i]).package_name
                != (#[trigger] group_releases(es)[j]).package_name,
        forall|i: int|
            0 <= i < group_releases(es).len() ==> sorted_by_id(#[trigger] group_releases(es)[i].changes),
        forall|i: int, c: PackageChangeView|
            0 <= i < group_releases(es).len() ==> (#[trigger] group_releases(es)[i].changes.contains(c)
                <==> es.contains((group_releases(es)[i].package_name, c))),
        forall|i: int|
            0 <= i < group_releases(es).len() ==> (#[trigger] group_releases(es)[i]).changes.to_multiset()
                == changes_for(es, group_releases(es)[i].package_name).to_multiset(),
        forall|n: Seq<char>, c: PackageChangeView|
            #[trigger] es.contains((n, c)) ==> exists|i: int|
                0 <= i < group_releases(es).len() && (#[trigger] group_releases(es)[i]).package_name == n,
        forall|i: int, x: Seq<char>|
            0 <= i < group_releases(es).len() ==> #[trigger] with_id(group_releases(es)[i].changes, x)
                == with_id(changes_for(es, group_releases(es)[i].package_name), x),
{
    broadcast use vstd::seq_lib::group_to_multiset_ensures;
    let g = group_releases(es);
    let names = release_names(es);
    lemma_release_names_no_duplicates(es);
    assert forall|i: int| 0 <= i < g.len() implies sorted_by_id(#[trigger] g[i].changes) && g[i].changes.to_multiset()
        == changes_for(es, g[i].package_name).to_multiset() by {
        lemma_sort_by_id(changes_for(es, names[i]));
    }
    assert forall|i: int, c: PackageChangeView| 0 <= i < g.len() implies (#[trigger] g[i].changes.contains(c)
        <==> es.contains((g[i].package_name, c))) by {
        lemma_sort_by_id(changes_for(es, names[i]));
        lemma_changes_for(es, names[i], c);
        assert(g[i].changes.contains(c) <==> g[i].changes.to_multiset().count(c) > 0);
        assert(changes_for(es, names[i]).contains(c) <==> changes_for(es, names[i]).to_multiset().count(c) > 0);
    }
    assert forall|i: int, x: Seq<char>| 0 <= i < g.len() implies #[trigger] with_id(g[i].changes, x)
        == with_id(changes_for(es, g[i].package_name), x) by {
        lemma_sort_by_id_stable(changes_for(es, names[i]), x);
    }
    assert forall|n: Seq<char>, c: PackageChangeView| #[trigger] es.contains((n, c)) implies exists|i: int|
        0 <= i < g.len() && (#[trigger] g[i]).package_name == n by {
        lemma_changes_for(es, n, c);
        lemma_release_names_contains(es, n);
        let i = choose|i: int| 0 <= i < names.len() && names[i] == n;
        assert(g[i].package_name == n);
    }
}

/// The changes with unique id `x`, in order.
pub open spec fn with_id(s: Seq<PackageChangeView>, x: Seq<char>) -> Seq<PackageChangeView>
    decreases s.len(),
{
    if s.len() == 0 {
        seq![]
    } else {
        let r = with_id(s.drop_last(), x);
        if s.last().unique_id == x {
            r.push(s.last())
        } else {
            r
        }
    }
}

/// Picking the changes with an id distributes over concatenation.
proof fn lemma_with_id_concat(a: Seq<PackageChangeView>, b: Seq<PackageChangeView>, x: Seq<char>)
    ensures
        with_id(a + b, x) == with_id(a, x) + with_id(b, x),
    decreases b.len(),
{
    if b.len() == 0 {
        assert(a + b =~= a);
        assert(with_id(a, x) + with_id(b, x) =~= with_id(a, x));
    } else {
        assert((a + b).drop_last() =~= a + b.drop_last());
        lemma_with_id_concat(a, b.drop_last(), x);
        assert((a + b).last() == b.last());
        if b.last().unique_id == x {
            assert(with_id(a, x) + with_id(b.drop_last(), x).push(b.last()) =~= (with_id(a, x)
                + with_id(b.drop_last(), x)).push(b.last()));
        }
    }
}

/// A change with an id other than `x` is picked by nothing.
proof fn lemma_with_id_single(c: PackageChangeView, x: Seq<char>)
    ensures
        with_id(seq![c], x) == (if c.unique_id == x { seq![c] } else { seq![] }),
{
    assert(seq![c].drop_last() =~= Seq::<PackageChangeView>::empty());
    assert(seq![c].last() == c);
    assert(with_id(Seq::<PackageChangeView>::empty(), x) =~= Seq::<PackageChangeView>::empty());
    assert(Seq::<PackageChangeView>::empty().push(c) =~= seq![c]);
    assert(with_id(seq![c], x) == (if c.unique_id == x { Seq::<PackageChangeView>::empty().push(c) } else { Seq::<PackageChangeView>::empty() }));
}

/// None of the changes has id `x`.
proof fn lemma_with_id_none(s: Seq<PackageChangeView>, x: Seq<char>)
    requires
        forall|i: int| 0 <= i < s.len() ==> (#[trigger] s[i]).unique_id != x,
    ensures
        with_id(s, x) == Seq::<PackageChangeView>::empty(),
    decreases s.len(),
{
    if s.len() > 0 {
        assert(s[s.len() - 1].unique_id != x);
        lemma_with_id_none(s.drop_last(), x);
    }
}

/// Inserting by id puts the change after every change with the same id.
proof fn lemma_insert_by_id_stable(t: Seq<PackageChangeView>, y: PackageChangeView, x: Seq<char>)
    requires
        sorted_by_id(t),
    ensures
        with_id(insert_by_id(t, y), x) == (if y.unique_id == x { with_id(t, x).push(y) } else { with_id(t, x) }),
    decreases t.len(),
{
    lemma_with_id_single(y, x);
    if t.len() == 0 {
        assert(with_id(t, x) =~= Seq::<PackageChangeView>::empty());
        assert(Seq::<PackageChangeView>::empty().push(y) =~= seq![y]);
    } else if str_lt(y.unique_id, t[0].unique_id) {
        lemma_with_id_concat(seq![y], t, x);
        if y.unique_id == x {
            assert forall|i: int| 0 <= i < t.len() implies (#[trigger] t[i]).unique_id != x by {
                if i > 0 {
                    assert(str_le(t[0].unique_id, t[i].unique_id));
                    if str_lt(t[0].unique_id, t[i].unique_id) {
                        lemma_str_lt_transitive(y.unique_id, t[0].unique_id, t[i].unique_id);
                    }
                }
                lemma_str_lt_irreflexive(y.unique_id);
            }
            lemma_with_id_none(t, x);
            assert(seq![y] + Seq::<PackageChangeView>::empty() =~= Seq::<PackageChangeView>::empty().push(y));
        } else {
            assert(Seq::<PackageChangeView>::empty() + with_id(t, x) =~= with_id(t, x));
        }
    } else {
        let t2 = t.drop_first();
        assert(sorted_by_id(t2)) by {
            assert forall|i: int, j: int| 0 <= i < j < t2.len() implies str_le(#[trigger] t2[i].unique_id, #[trigger] t2[j].unique_id) by {
                assert(t2[i] == t[i + 1]);
                assert(t2[j] == t[j + 1]);
            }
        }
        lemma_insert_by_id_stable(t2, y, x);
        lemma_with_id_concat(seq![t[0]], insert_by_id(t2, y), x);
        assert(t =~= seq![t[0]] + t2);
        lemma_with_id_concat(seq![t[0]], t2, x);
        if y.unique_id == x {
            assert(with_id(seq![t[0]], x) + with_id(t2, x).push(y) =~= (with_id(seq![t[0]], x) + with_id(
                t2,
                x,
            )).push(y));
        }
    }
}

/// Sorting by id is stable: the changes with any one id come in the order in
/// which they were given.
pub proof fn lemma_sort_by_id_stable(s: Seq<PackageChangeView>, x: Seq<char>)
    ensures
        with_id(sort_by_id(s), x) == with_id(s, x),
    decreases s.len(),
{
    if s.len() > 0 {
        lemma_sort_by_id_stable(s.drop_last(), x);
        lemma_sort_by_id(s.drop_last());
        lemma_insert_by_id_stable(sort_by_id(s.drop_last()), s.last(), x);
    }
}

/// Every package that a change names gets that change: the entries of the
/// changes hold, for each change and each package in its versioning, the
/// package with the change's id, that change type and the change's summary;
/// and they hold nothing else.
pub proof fn lemma_package_entries(cs: Seq<ChangeView>)
    ensures
        forall|i: int, j: int|
            0 <= i < cs.len() && 0 <= j < cs[i].versioning.len() ==> package_entries(cs).contains(
                (cs[i].versioning[j].0, package_change_of(cs[i], #[trigger] cs[i].versioning[j])),
            ),
        forall|n: Seq<char>, p: PackageChangeView|
            #[trigger] package_entries(cs).contains((n, p)) ==> exists|i: int, j: int|
                0 <= i < cs.len() && 0 <= j < cs[i].versioning.len() && cs[i].versioning[j].0 == n
                    && p == package_change_of(cs[i], #[trigger] cs[i].versioning[j]),
    decreases cs.len(),
{
    if cs.len() > 0 {
        let t = cs.drop_last();
        let c = cs.last();
        lemma_package_entries(t);
        let a = package_entries(t);
        let b = entries_of_change(c);
        assert(package_entries(cs) == a + b);
        assert forall|i: int, j: int|
            0 <= i < cs.len() && 0 <= j < cs[i].versioning.len() implies package_entries(cs).contains(
                (cs[i].versioning[j].0, package_change_of(cs[i], #[trigger] cs[i].versioning[j])),
            ) by {
            if i < cs.len() - 1 {
                assert(cs[i] == t[i]);
                assert(a.contains((t[i].versioning[j].0, package_change_of(t[i], t[i].versioning[j]))));
                let k = choose|k: int| 0 <= k < a.len() && a[k] == (t[i].versioning[j].0, package_change_of(t[i], t[i].versioning[j]));
                assert((a + b)[k] == a[k]);
            } else {
                assert(cs[i] == c);
                assert(b[j] == (c.versioning[j].0, package_change_of(c, c.versioning[j])));
                assert((a + b)[a.len() + j] == b[j]);
            }
        }
        assert forall|n: Seq<char>, p: PackageChangeView| #[trigger] package_entries(cs).contains((n, p))
            implies exists|i: int, j: int|
                0 <= i < cs.len() && 0 <= j < cs[i].versioning.len() && cs[i].versioning[j].0 == n
                    && p == package_change_of(cs[i], #[trigger] cs[i].versioning[j]) by {
            let k = choose|k: int| 0 <= k < (a + b).len() && (a + b)[k] == (n, p);
            if k < a.len() {
                assert(a[k] == (n, p));
                assert(a.contains((n, p)));
                let (i, j) = choose|i: int, j: int|
                    0 <= i < t.len() && 0 <= j < t[i].versioning.len() && t[i].versioning[j].0 == n
                        && p == package_change_of(t[i], #[trigger] t[i].versioning[j]);
                assert(cs[i] == t[i]);
            } else {
                let j = k - a.len();
                assert(b[j] == (n, p));
                assert(cs[cs.len() - 1] == c);
                assert(c.versioning[j].0 == n && p == package_change_of(cs[cs.len() - 1], cs[cs.len() - 1].versioning[j]));
            }
        }
    }
}

/// No two of the changes have the same unique id.
pub open spec fn distinct_ids(cs: Seq<ChangeView>) -> bool {
    forall|i: int, j: int| 0 <= i < cs.len() && 0 <= j < cs.len() && i != j ==> (#[trigger] cs[i]).unique_id
        != (#[trigger] cs[j]).unique_id
}

/// Each change's versioning is sorted by package name, as every [`Versioning`](crate::versioning::Versioning) is.
pub open spec fn valid_changes(cs: Seq<ChangeView>) -> bool {
    forall|i: int| 0 <= i < cs.len() ==> sorted_names(#[trigger] cs[i].versioning)
}

/// The entries of changes with distinct ids and valid versionings occur once each.
proof fn lemma_package_entries_no_duplicates(cs: Seq<ChangeView>)
    requires
        distinct_ids(cs),
        valid_changes(cs),
    ensures
        package_entries(cs).no_duplicates(),
    decreases cs.len(),
{
    if cs.len() > 0 {
        let t = cs.drop_last();
        let c = cs.last();
        assert(distinct_ids(t)) by {
            assert forall|i: int, j: int| 0 <= i < t.len() && 0 <= j < t.len() && i != j implies (#[trigger] t[i]).unique_id
                != (#[trigger] t[j]).unique_id by {
                assert(t[i] == cs[i] && t[j] == cs[j]);
            }
        }
        assert(valid_changes(t)) by {
            assert forall|i: int| 0 <= i < t.len() implies sorted_names(#[trigger] t[i].versioning) by {
                assert(t[i] == cs[i]);
            }
        }
        lemma_package_entries_no_duplicates(t);
        lemma_package_entries(t);
        let a = package_entries(t);
        let b = entries_of_change(c);
        assert(sorted_names(c.versioning)) by {
            assert(cs[cs.len() - 1] == c);
        }
        lemma_sorted_no_duplicates(c.versioning);
        assert forall|i: int, j: int| 0 <= i < (a + b).len() && 0 <= j < (a + b).len() && i != j implies (a
            + b)[i] != (a + b)[j] by {
            if i < a.len() && j < a.len() {
                assert((a + b)[i] == a[i] && (a + b)[j] == a[j]);
            } else if i >= a.len() && j >= a.len() {
                assert((a + b)[i] == b[i - a.len()] && (a + b)[j] == b[j - a.len()]);
                assert(names_of(c.versioning)[i - a.len()] != names_of(c.versioning)[j - a.len()]);
            } else {
                let (k, m) = if i < a.len() { (i, j - a.len()) } else { (j, i - a.len()) };
                assert((a + b)[k] == a[k]);
                assert((a + b)[a.len() + m] == b[m]);
                if a[k] == b[m] {
                    assert(a.contains(a[k]));
                    let (n, p) = a[k];
                    let (x, y) = choose|x: int, y: int|
                        0 <= x < t.len() && 0 <= y < t[x].versioning.len() && t[x].versioning[y].0 == n
                            && p == package_change_of(t[x], #[trigger] t[x].versioning[y]);
                    assert(t[x] == cs[x]);
                    assert(cs[cs.len() - 1] == c);
                    assert(p.unique_id == c.unique_id);
                }
            }
        }
        assert(package_entries(cs) == a + b);
    }
}

/// Among the entries of changes with distinct ids, the changes for one package
/// with the same id are the same.
proof fn lemma_package_entries_ids(cs: Seq<ChangeView>, n: Seq<char>, c1: PackageChangeView, c2: PackageChangeView)
    requires
        distinct_ids(cs),
        valid_changes(cs),
        package_entries(cs).contains((n, c1)),
        package_entries(cs).contains((n, c2)),
        c1.unique_id == c2.unique_id,
    ensures
        c1 == c2,
{
    lemma_package_entries(cs);
    let (i1, j1) = choose|i: int, j: int|
        0 <= i < cs.len() && 0 <= j < cs[i].versioning.len() && cs[i].versioning[j].0 == n
            && c1 == package_change_of(cs[i], #[trigger] cs[i].versioning[j]);
    let (i2, j2) = choose|i: int, j: int|
        0 <= i < cs.len() && 0 <= j < cs[i].versioning.len() && cs[i].versioning[j].0 == n
            && c2 == package_change_of(cs[i], #[trigger] cs[i].versioning[j]);
    assert(i1 == i2);
    let v = cs[i1].versioning;
    assert(sorted_names(v));
    lemma_sorted_no_duplicates(v);
    if j1 != j2 {
        assert(names_of(v)[j1] != names_of(v)[j2]);
    }
}

/// The changes for a package occur once each when the entries do.
proof fn lemma_changes_for_no_duplicates(es: Seq<(Seq<char>, PackageChangeView)>, n: Seq<char>)
    requires
        es.no_duplicates(),
    ensures
        changes_for(es, n).no_duplicates(),
    decreases es.len(),
{
    if es.len() > 0 {
        let t = es.drop_last();
        assert(t.no_duplicates()) by {
            assert forall|i: int, j: int| 0 <= i < t.len() && 0 <= j < t.len() && i != j implies t[i] != t[j] by {
                assert(t[i] == es[i] && t[j] == es[j]);
            }
        }
        lemma_changes_for_no_duplicates(t, n);
        if es.last().0 == n {
            let r = changes_for(t, n);
            lemma_changes_for(t, n, es.last().1);
            assert(!t.contains(es.last())) by {
                if t.contains(es.last()) {
                    let k = choose|k: int| 0 <= k < t.len() && t[k] == es.last();
                    assert(es[k] == es[es.len() - 1]);
                }
            }
            assert(es.last() == (n, es.last().1));
            assert forall|i: int, j: int| 0 <= i < r.push(es.last().1).len() && 0 <= j < r.push(es.last().1).len() && i != j
                implies r.push(es.last().1)[i] != r.push(es.last().1)[j] by {
                if i == r.len() {
                    assert(r.contains(r[j]));
                } else if j == r.len() {
                    assert(r.contains(r[i]));
                }
            }
        }
    }
}

/// Changes sorted by id, each once, where equal ids mean equal changes, are
/// fixed by which changes they hold.
proof fn lemma_sorted_changes_unique(a: Seq<PackageChangeView>, b: Seq<PackageChangeView>)
    requires
        sorted_by_id(a),
        sorted_by_id(b),
        a.no_duplicates(),
        b.no_duplicates(),
        forall|x: PackageChangeView| a.contains(x) <==> b.contains(x),
        forall|x: PackageChangeView, y: PackageChangeView|
            a.contains(x) && a.contains(y) && x.unique_id == y.unique_id ==> x == y,
    ensures
        a == b,
    decreases a.len(),
{
    if a.len() == 0 {
        if b.len() > 0 {
            assert(b.contains(b[0]));
        }
        assert(a =~= b);
    } else {
        assert(a.contains(a[0]));
        assert(b.len() > 0);
        assert(b.contains(b[0]));
        let k = choose|k: int| 0 <= k < b.len() && b[k] == a[0];
        let l = choose|l: int| 0 <= l < a.len() && a[l] == b[0];
        assert(a[0] == b[0]) by {
            if a[0] != b[0] {
                assert(a[0].unique_id != b[0].unique_id);
                assert(k != 0 && l != 0);
                assert(str_le(a[0].unique_id, a[l].unique_id));
                assert(str_le(b[0].unique_id, b[k].unique_id));
                lemma_str_lt_asymmetric(a[0].unique_id, b[0].unique_id);
            }
        }
        let a2 = a.drop_first();
        let b2 = b.drop_first();
        assert(sorted_by_id(a2)) by {
            assert forall|i: int, j: int| 0 <= i < j < a2.len() implies str_le(#[trigger] a2[i].unique_id, #[trigger] a2[j].unique_id) by {
                assert(a2[i] == a[i + 1] && a2[j] == a[j + 1]);
            }
        }
        assert(sorted_by_id(b2)) by {
            assert forall|i: int, j: int| 0 <= i < j < b2.len() implies str_le(#[trigger] b2[i].unique_id, #[trigger] b2[j].unique_id) by {
                assert(b2[i] == b[i + 1] && b2[j] == b[j + 1]);
            }
        }
        assert(a2.no_duplicates()) by {
            assert forall|i: int, j: int| 0 <= i < a2.len() && 0 <= j < a2.len() && i != j implies a2[i] != a2[j] by {
                assert(a2[i] == a[i + 1] && a2[j] == a[j + 1]);
            }
        }
        assert(b2.no_duplicates()) by {
            assert forall|i: int, j: int| 0 <= i < b2.len() && 0 <= j < b2.len() && i != j implies b2[i] != b2[j] by {
                assert(b2[i] == b[i + 1] && b2[j] == b[j + 1]);
            }
        }
        assert forall|x: PackageChangeView| a2.contains(x) <==> b2.contains(x) by {
            if a2.contains(x) {
                let i = choose|i: int| 0 <= i < a2.len() && a2[i] == x;
                assert(a[i + 1] == x);
                assert(a.contains(x));
                let j = choose|j: int| 0 <= j < b.len() && b[j] == x;
                assert(j != 0);
                assert(b2[j - 1] == x);
            }
            if b2.contains(x) {
                let i = choose|i: int| 0 <= i < b2.len() && b2[i] == x;
                assert(b[i + 1] == x);
                assert(b.contains(x));
                let j = choose|j: int| 0 <= j < a.len() && a[j] == x;
                assert(j != 0);
                assert(a2[j - 1] == x);
            }
        }
        assert forall|x: PackageChangeView, y: PackageChangeView|
            a2.contains(x) && a2.contains(y) && x.unique_id == y.unique_id implies x == y by {
            if a2.contains(x) && a2.contains(y) {
                let i = choose|i: int| 0 <= i < a2.len() && a2[i] == x;
                let j = choose|j: int| 0 <= j < a2.len() && a2[j] == y;
                assert(a[i + 1] == x && a[j + 1] == y);
                assert(a.contains(x) && a.contains(y));
            }
        }
        lemma_sorted_changes_unique(a2, b2);
        assert(a =~= seq![a[0]] + a2);
        assert(b =~= seq![b[0]] + b2);
    }
}

/// Two sequences that hold the same values, each once, are permutations of each other.
pub proof fn lemma_same_elements_multiset<A>(a: Seq<A>, b: Seq<A>)
    requires
        a.no_duplicates(),
        b.no_duplicates(),
        forall|x: A| a.contains(x) <==> b.contains(x),
    ensures
        a.to_multiset() =~= b.to_multiset(),
{
    broadcast use vstd::seq_lib::group_to_multiset_ensures;
    a.lemma_multiset_has_no_duplicates();
    b.lemma_multiset_has_no_duplicates();
    assert forall|x: A| a.to_multiset().count(x) == b.to_multiset().count(x) by {
        if a.contains(x) {
            assert(b.contains(x));
        }
    }
}

/// The facts about the entries of changes with distinct ids and valid
/// versionings that grouping them needs.
proof fn lemma_release_of_entries(cs: Seq<ChangeView>, n: Seq<char>)
    requires
        distinct_ids(cs),
        valid_changes(cs),
    ensures
        sorted_by_id(sort_by_id(changes_for(package_entries(cs), n))),
        sort_by_id(changes_for(package_entries(cs), n)).no_duplicates(),
        forall|x: PackageChangeView| #[trigger] sort_by_id(changes_for(package_entries(cs), n)).contains(x)
            <==> package_entries(cs).contains((n, x)),
        forall|x: PackageChangeView, y: PackageChangeView|
            sort_by_id(changes_for(package_entries(cs), n)).contains(x) && sort_by_id(
                changes_for(package_entries(cs), n),
            ).contains(y) && x.unique_id == y.unique_id ==> x == y,
{
    broadcast use vstd::seq_lib::group_to_multiset_ensures;
    let es = package_entries(cs);
    let s = changes_for(es, n);
    let a = sort_by_id(s);
    lemma_sort_by_id(s);
    lemma_package_entries_no_duplicates(cs);
    lemma_changes_for_no_duplicates(es, n);
    assert forall|x: PackageChangeView| #[trigger] a.contains(x) <==> es.contains((n, x)) by {
        lemma_changes_for(es, n, x);
        assert(a.contains(x) <==> a.to_multiset().count(x) > 0);
        assert(s.contains(x) <==> s.to_multiset().count(x) > 0);
    }
    s.lemma_multiset_has_no_duplicates();
    assert forall|x: PackageChangeView| a.to_multiset().contains(x) implies a.to_multiset().count(x) == 1 by {
    }
    a.lemma_multiset_has_no_duplicates_conv();
    assert forall|x: PackageChangeView, y: PackageChangeView|
        a.contains(x) && a.contains(y) && x.unique_id == y.unique_id implies x == y by {
        lemma_package_entries_ids(cs, n, x, y);
    }
}

/// Grouping permuted changes with distinct unique ids gives the same releases,
/// each with its changes in the same order; only the order of the releases
/// may differ.
pub proof fn lemma_group_releases_permutation(cs1: Seq<ChangeView>, cs2: Seq<ChangeView>)
    requires
        cs1.to_multiset() == cs2.to_multiset(),
        distinct_ids(cs1),
        valid_changes(cs1),
        valid_changes(cs2),
    ensures
        group_releases(package_entries(cs1)).to_multiset() == group_releases(package_entries(cs2)).to_multiset(),
{
    broadcast use vstd::seq_lib::group_to_multiset_ensures;
    // The same changes, and with distinct ids on both sides.
    assert forall|x: ChangeView| cs1.contains(x) <==> cs2.contains(x) by {
        assert(cs1.contains(x) <==> cs1.to_multiset().count(x) > 0);
        assert(cs2.contains(x) <==> cs2.to_multiset().count(x) > 0);
    }
    assert(cs1.no_duplicates()) by {
        assert forall|i: int, j: int| 0 <= i < cs1.len() && 0 <= j < cs1.len() && i != j implies cs1[i] != cs1[j] by {
            assert(cs1[i].unique_id != cs1[j].unique_id);
        }
    }
    cs1.lemma_multiset_has_no_duplicates();
    assert forall|x: ChangeView| cs2.to_multiset().contains(x) implies cs2.to_multiset().count(x) == 1 by {}
    cs2.lemma_multiset_has_no_duplicates_conv();
    assert(distinct_ids(cs2)) by {
        assert forall|i: int, j: int| 0 <= i < cs2.len() && 0 <= j < cs2.len() && i != j implies (#[trigger] cs2[i]).unique_id
            != (#[trigger] cs2[j]).unique_id by {
            assert(cs2.contains(cs2[i]) && cs2.contains(cs2[j]));
            let k = choose|k: int| 0 <= k < cs1.len() && cs1[k] == cs2[i];
            let l = choose|l: int| 0 <= l < cs1.len() && cs1[l] == cs2[j];
            assert(cs2[i] != cs2[j]);
        }
    }
    let es1 = package_entries(cs1);
    let es2 = package_entries(cs2);
    lemma_package_entries(cs1);
    lemma_package_entries(cs2);
    // The same entries.
    assert forall|n: Seq<char>, p: PackageChangeView| es1.contains((n, p)) <==> es2.contains((n, p)) by {
        if es1.contains((n, p)) {
            let (i, j) = choose|i: int, j: int|
                0 <= i < cs1.len() && 0 <= j < cs1[i].versioning.len() && cs1[i].versioning[j].0 == n
                    && p == package_change_of(cs1[i], #[trigger] cs1[i].versioning[j]);
            assert(cs1.contains(cs1[i]));
            let k = choose|k: int| 0 <= k < cs2.len() && cs2[k] == cs1[i];
            assert(cs2[k].versioning[j] == cs1[i].versioning[j]);
        }
        if es2.contains((n, p)) {
            let (i, j) = choose|i: int, j: int|
                0 <= i < cs2.len() && 0 <= j < cs2[i].versioning.len() && cs2[i].versioning[j].0 == n
                    && p == package_change_of(cs2[i], #[trigger] cs2[i].versioning[j]);
            assert(cs2.contains(cs2[i]));
            let k = choose|k: int| 0 <= k < cs1.len() && cs1[k] == cs2[i];
            assert(cs1[k].versioning[j] == cs2[i].versioning[j]);
        }
    }
    // The same release for each package.
    assert forall|n: Seq<char>| sort_by_id(changes_for(es1, n)) == sort_by_id(changes_for(es2, n)) by {
        lemma_release_of_entries(cs1, n);
        lemma_release_of_entries(cs2, n);
        let a = sort_by_id(changes_for(es1, n));
        let b = sort_by_id(changes_for(es2, n));
        assert forall|x: PackageChangeView| a.contains(x) <==> b.contains(x) by {
            assert(a.contains(x) <==> es1.contains((n, x)));
            assert(b.contains(x) <==> es2.contains((n, x)));
        }
        lemma_sorted_changes_unique(a, b);
    }
    // The same packages.
    let names1 = release_names(es1);
    let names2 = release_names(es2);
    lemma_release_names_no_duplicates(es1);
    lemma_release_names_no_duplicates(es2);
    assert forall|n: Seq<char>| names1.contains(n) <==> names2.contains(n) by {
        lemma_release_names_contains(es1, n);
        lemma_release_names_contains(es2, n);
        let s1 = changes_for(es1, n);
        let s2 = changes_for(es2, n);
        if s1.len() > 0 {
            lemma_changes_for(es1, n, s1[0]);
            lemma_changes_for(es2, n, s1[0]);
            assert(s1.contains(s1[0]));
        }
        if s2.len() > 0 {
            lemma_changes_for(es1, n, s2[0]);
            lemma_changes_for(es2, n, s2[0]);
            assert(s2.contains(s2[0]));
        }
    }
    // So the same releases, each once.
    let g1 = group_releases(es1);
    let g2 = group_releases(es2);
    assert(g1.no_duplicates()) by {
        assert forall|i: int, j: int| 0 <= i < g1.len() && 0 <= j < g1.len() && i != j implies g1[i] != g1[j] by {
            assert(g1[i].package_name == names1[i] && g1[j].package_name == names1[j]);
        }
    }
    assert(g2.no_duplicates()) by {
        assert forall|i: int, j: int| 0 <= i < g2.len() && 0 <= j < g2.len() && i != j implies g2[i] != g2[j] by {
            assert(g2[i].package_name == names2[i] && g2[j].package_name == names2[j]);
        }
    }
    assert forall|r: ReleaseView| g1.contains(r) <==> g2.contains(r) by {
        if g1.contains(r) {
            let i = choose|i: int| 0 <= i < g1.len() && g1[i] == r;
            assert(names1.contains(names1[i]));
            let j = choose|j: int| 0 <= j < names2.len() && names2[j] == names1[i];
            assert(g2[j] == r);
        }
        if g2.contains(r) {
            let i = choose|i: int| 0 <= i < g2.len() && g2[i] == r;
            assert(names2.contains(names2[i]));
            let j = choose|j: int| 0 <= j < names1.len() && names1[j] == names2[i];
            assert(g1[j] == r);
        }
    }
    lemma_same_elements_multiset(g1, g2);
}

/// Every package that a change names has a release that holds the change,
/// with the change's unique id, the change type it gives that package, and
/// the change's whole summary; and every change in a release is such a
/// change of a change that names the release's package.
pub proof fn lemma_releases_hold_changes(cs: Seq<ChangeView>)
    ensures
        forall|i: int, j: int|
            #![trigger cs[i].versioning[j]]
            0 <= i < cs.len() && 0 <= j < cs[i].versioning.len() ==> exists|k: int, m: int|
                #![trigger group_releases(package_entries(cs))[k].changes[m]]
                0 <= k < group_releases(package_entries(cs)).len() && 0 <= m
                    < group_releases(package_entries(cs))[k].changes.len()
                    && group_releases(package_entries(cs))[k].package_name == cs[i].versioning[j].0
                    && group_releases(package_entries(cs))[k].changes[m].unique_id == cs[i].unique_id
                    && group_releases(package_entries(cs))[k].changes[m].change_type == cs[i].versioning[j].1
                    && group_releases(package_entries(cs))[k].changes[m].summary == cs[i].summary,
        forall|k: int, m: int|
            #![trigger group_releases(package_entries(cs))[k].changes[m]]
            0 <= k < group_releases(package_entries(cs)).len() && 0 <= m
                < group_releases(package_entries(cs))[k].changes.len() ==> exists|i: int, j: int|
                #![trigger cs[i].versioning[j]]
                0 <= i < cs.len() && 0 <= j < cs[i].versioning.len()
                    && cs[i].versioning[j].0 == group_releases(package_entries(cs))[k].package_name
                    && group_releases(package_entries(cs))[k].changes[m].unique_id == cs[i].unique_id
                    && group_releases(package_entries(cs))[k].changes[m].change_type == cs[i].versioning[j].1
                    && group_releases(package_entries(cs))[k].changes[m].summary == cs[i].summary,
{
    let es = package_entries(cs);
    let g = group_releases(es);
    lemma_package_entries(cs);
    lemma_group_releases(es);
    assert forall|i: int, j: int|
        #![trigger cs[i].versioning[j]]
        0 <= i < cs.len() && 0 <= j < cs[i].versioning.len() implies exists|k: int, m: int|
        #![trigger g[k].changes[m]]
        0 <= k < g.len() && 0 <= m < g[k].changes.len() && g[k].package_name == cs[i].versioning[j].0
            && g[k].changes[m].unique_id == cs[i].unique_id && g[k].changes[m].change_type
            == cs[i].versioning[j].1 && g[k].changes[m].summary == cs[i].summary by {
        let n = cs[i].versioning[j].0;
        let c = package_change_of(cs[i], cs[i].versioning[j]);
        assert(es.contains((n, c)));
        let k = choose|k: int| 0 <= k < g.len() && (#[trigger] g[k]).package_name == n;
        assert(g[k].changes.contains(c));
        let m = choose|m: int| 0 <= m < g[k].changes.len() && g[k].changes[m] == c;
        assert(g[k].changes[m] == c);
    }
    assert forall|k: int, m: int|
        #![trigger g[k].changes[m]]
        0 <= k < g.len() && 0 <= m < g[k].changes.len() implies exists|i: int, j: int|
        #![trigger cs[i].versioning[j]]
        0 <= i < cs.len() && 0 <= j < cs[i].versioning.len() && cs[i].versioning[j].0 == g[k].package_name
            && g[k].changes[m].unique_id == cs[i].unique_id && g[k].changes[m].change_type
            == cs[i].versioning[j].1 && g[k].changes[m].summary == cs[i].summary by {
        let c = g[k].changes[m];
        assert(g[k].changes.contains(c));
        assert(es.contains((g[k].package_name, c)));
        let (i, j) = choose|i: int, j: int|
            0 <= i < cs.len() && 0 <= j < cs[i].versioning.len() && cs[i].versioning[j].0 == g[k].package_name
                && c == package_change_of(cs[i], #[trigger] cs[i].versioning[j]);
        assert(cs[i].versioning[j] == cs[i].versioning[j]);
    }
}

} // verus!
