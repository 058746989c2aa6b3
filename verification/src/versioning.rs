//! Change types and the versioning of a change: which packages it affects,
//! and how.

use vstd::prelude::*;
use core::cmp::Ordering;
use crate::text::{chars_of, range_eq, str_lt, string_lt, lemma_str_lt_irreflexive, lemma_str_lt_transitive, lemma_str_lt_total, lemma_str_lt_asymmetric};

verus! {

/// The name of a package.
pub type PackageName = String;

/// The [Semantic Versioning](https://semver.org/) component to increment when a change is
/// applied, or a custom label, which bumps like a patch.
#[derive(Debug, Eq, PartialEq)]
pub enum ChangeType {
    Patch,
    Minor,
    Major,
    Custom(String),
}

/// What a [`ChangeType`] is, with the label of a custom one as characters.
pub enum ChangeKind {
    Patch,
    Minor,
    Major,
    Custom(Seq<char>),
}

impl View for ChangeType {
    type V = ChangeKind;

    open spec fn view(&self) -> ChangeKind {
        match self {
            ChangeType::Patch => ChangeKind::Patch,
            ChangeType::Minor => ChangeKind::Minor,
            ChangeType::Major => ChangeKind::Major,
            ChangeType::Custom(label) => ChangeKind::Custom(label@),
        }
    }
}

impl Clone for ChangeType {
    fn clone(&self) -> (r: Self)
        ensures
            r@ == self@,
    {
        match self {
            ChangeType::Patch => ChangeType::Patch,
            ChangeType::Minor => ChangeType::Minor,
            ChangeType::Major => ChangeType::Major,
            ChangeType::Custom(label) => ChangeType::Custom(label.clone()),
        }
    }
}

/// The characters `patch`.
pub open spec fn patch_word() -> Seq<char> {
    seq!['p', 'a', 't', 'c', 'h']
}

/// The characters `minor`.
pub open spec fn minor_word() -> Seq<char> {
    seq!['m', 'i', 'n', 'o', 'r']
}

/// The characters `major`.
pub open spec fn major_word() -> Seq<char> {
    seq!['m', 'a', 'j', 'o', 'r']
}

/// The change type that a label names: `patch`, `minor` and `major` name the
/// three versioning components, any other label a custom type.
pub open spec fn kind_of_label(s: Seq<char>) -> ChangeKind {
    if s == patch_word() {
        ChangeKind::Patch
    } else if s == minor_word() {
        ChangeKind::Minor
    } else if s == major_word() {
        ChangeKind::Major
    } else {
        ChangeKind::Custom(s)
    }
}

/// How a change type is written.
pub open spec fn label_of(k: ChangeKind) -> Seq<char> {
    match k {
        ChangeKind::Patch => patch_word(),
        ChangeKind::Minor => minor_word(),
        ChangeKind::Major => major_word(),
        ChangeKind::Custom(s) => s,
    }
}

/// The place of a change type in the order of change types: every custom type
/// below `patch`, `patch` below `minor`, `minor` below `major`; custom types
/// are all equal in this order.
pub open spec fn rank(k: ChangeKind) -> nat {
    match k {
        ChangeKind::Custom(_) => 0,
        ChangeKind::Patch => 1,
        ChangeKind::Minor => 2,
        ChangeKind::Major => 3,
    }
}

impl ChangeType {
    /// Parses a change type from its label.
    pub fn from(s: &str) -> (r: ChangeType)
        ensures
            r@ == kind_of_label(s@),
    {
        let v = chars_of(s);
        let n = v.len();
        if range_eq(&v, 0, n, &vec!['p', 'a', 't', 'c', 'h']) {
            assert(v@.subrange(0, n as int) =~= v@);
            ChangeType::Patch
        } else if range_eq(&v, 0, n, &vec!['m', 'i', 'n', 'o', 'r']) {
            assert(v@.subrange(0, n as int) =~= v@);
            ChangeType::Minor
        } else if range_eq(&v, 0, n, &vec!['m', 'a', 'j', 'o', 'r']) {
            assert(v@.subrange(0, n as int) =~= v@);
            ChangeType::Major
        } else {
            assert(v@.subrange(0, n as int) =~= v@);
            ChangeType::Custom(String::from_str(s))
        }
    }

    /// The label of this change type, as it is written in a change file.
    pub fn to_string(&self) -> (s: String)
        ensures
            s@ == label_of(self@),
    {
        match self {
            ChangeType::Patch => {
                let s = String::from_str("patch");
                proof {
                    reveal_strlit("patch");
                }
                assert(s@ =~= patch_word());
                s
            },
            ChangeType::Minor => {
                let s = String::from_str("minor");
                proof {
                    reveal_strlit("minor");
                }
                assert(s@ =~= minor_word());
                s
            },
            ChangeType::Major => {
                let s = String::from_str("major");
                proof {
                    reveal_strlit("major");
                }
                assert(s@ =~= major_word());
                s
            },
            ChangeType::Custom(label) => label.clone(),
        }
    }

    /// The place of this change type in the order of change types.
    pub fn rank(&self) -> (r: u8)
        ensures
            r == rank(self@),
    {
        match self {
            ChangeType::Custom(_) => 0,
            ChangeType::Patch => 1,
            ChangeType::Minor => 2,
            ChangeType::Major => 3,
        }
    }
}

/// The error that occurs when a [`Versioning`] is built from no entries.
#[derive(Clone, Copy, Debug, Eq, PartialEq, Structural)]
pub enum BuildVersioningError {
    /// There were no entries.
    EmptyVersioningError,
}

impl BuildVersioningError {
    /// The message of this error.
    pub fn to_string(&self) -> (s: String)
        ensures
            s@ == "Versioning needs to contain at least one item."@,
    {
        String::from_str("Versioning needs to contain at least one item.")
    }
}

/// A versioning entry as plain values: the package's name and the change type.
pub open spec fn entry_view(e: (PackageName, ChangeType)) -> (Seq<char>, ChangeKind) {
    (e.0@, e.1@)
}

/// Versioning entries as plain values.
pub open spec fn entries_view(v: Seq<(PackageName, ChangeType)>) -> Seq<(Seq<char>, ChangeKind)> {
    v.map_values(|e: (PackageName, ChangeType)| entry_view(e))
}

/// The entries are in strictly increasing order of package name, so that no
/// package occurs twice.
pub open spec fn sorted_names(es: Seq<(Seq<char>, ChangeKind)>) -> bool {
    forall|i: int, j: int| 0 <= i < j < es.len() ==> str_lt(#[trigger] es[i].0, #[trigger] es[j].0)
}

/// Entry `i` of `es` is that of package `n`.
pub open spec fn names_at(es: Seq<(Seq<char>, ChangeKind)>, n: Seq<char>, i: int) -> bool {
    0 <= i < es.len() && es[i].0 == n
}

/// The change type that the entries give to package `n`, if any.
pub open spec fn lookup(es: Seq<(Seq<char>, ChangeKind)>, n: Seq<char>) -> Option<ChangeKind> {
    if exists|i: int| #[trigger] names_at(es, n, i) {
        Some(es[choose|i: int| #[trigger] names_at(es, n, i)].1)
    } else {
        None
    }
}

/// The change type that the last pair naming package `n` gives it, if any.
pub open spec fn last_kind(ps: Seq<(Seq<char>, ChangeKind)>, n: Seq<char>) -> Option<ChangeKind>
    decreases ps.len(),
{
    if ps.len() == 0 {
        None
    } else if ps.last().0 == n {
        Some(ps.last().1)
    } else {
        last_kind(ps.drop_last(), n)
    }
}

/// `es` is the versioning made of the pairs `ps`: sorted by name, and each
/// package with the change type of the last pair that names it.
pub open spec fn describes(es: Seq<(Seq<char>, ChangeKind)>, ps: Seq<(Seq<char>, ChangeKind)>) -> bool {
    &&& sorted_names(es)
    &&& forall|n: Seq<char>| #[trigger] lookup(es, n) == last_kind(ps, n)
}

/// In sorted entries, the entry at `i` is the one that `lookup` finds.
pub proof fn lemma_lookup_at(es: Seq<(Seq<char>, ChangeKind)>, i: int)
    requires
        sorted_names(es),
        0 <= i < es.len(),
    ensures
        lookup(es, es[i].0) == Some(es[i].1),
{
    let n = es[i].0;
    assert(names_at(es, n, i));
    let j = choose|j: int| #[trigger] names_at(es, n, j);
    if j != i {
        if j < i {
            assert(str_lt(es[j].0, es[i].0));
        } else {
            assert(str_lt(es[i].0, es[j].0));
        }
        lemma_str_lt_irreflexive(n);
    }
}

/// Describes how a change affects the version of the packages it names.
///
/// It never is empty: a change always applies to at least one package.
#[derive(Debug, Eq, PartialEq)]
pub struct Versioning {
    entries: Vec<(PackageName, ChangeType)>,
}

impl View for Versioning {
    type V = Seq<(Seq<char>, ChangeKind)>;

    closed spec fn view(&self) -> Seq<(Seq<char>, ChangeKind)> {
        entries_view(self.entries@)
    }
}

impl Versioning {
    /// The entries are sorted by name, and there is at least one.
    #[verifier::type_invariant]
    pub open spec fn well_formed(self) -> bool {
        &&& self@.len() > 0
        &&& sorted_names(self@)
    }

    /// Sets package `name` to `kind` in sorted entries, in place of what it had.
    fn insert_entry(entries: &mut Vec<(PackageName, ChangeType)>, name: PackageName, kind: ChangeType)
        requires
            sorted_names(entries_view(old(entries)@)),
        ensures
            sorted_names(entries_view(final(entries)@)),
            final(entries)@.len() > 0,
            forall|n: Seq<char>|
                #[trigger] lookup(entries_view(final(entries)@), n) == if n == name@ {
                    Some(kind@)
                } else {
                    lookup(entries_view(old(entries)@), n)
                },
    {
        let ghost es = entries_view(entries@);
        let mut p: usize = 0;
        while p < entries.len() && string_lt(entries[p].0.as_str(), name.as_str())
            invariant
                p <= entries@.len(),
                es == entries_view(entries@),
                forall|i: int| 0 <= i < p ==> str_lt(#[trigger] es[i].0, name@),
            decreases entries@.len() - p,
        {
            p = p + 1;
        }
        let ghost nv = name@;
        let ghost kv = kind@;
        if p < entries.len() && entries[p].0 == name {
            entries.set(p, (name, kind));
            let ghost es2 = entries_view(entries@);
            assert(es2 =~= es.update(p as int, (nv, kv)));
            assert forall|i: int, j: int| 0 <= i < j < es2.len() implies str_lt(#[trigger] es2[i].0, #[trigger] es2[j].0) by {
                assert(es[i].0 == es2[i].0);
                assert(es[j].0 == es2[j].0);
            }
            assert forall|n: Seq<char>| #[trigger] lookup(es2, n) == if n == nv { Some(kv) } else { lookup(es, n) } by {
                if n == nv {
                    lemma_lookup_at(es2, p as int);
                } else {
                    if exists|i: int| #[trigger] names_at(es, n, i) {
                        let i = choose|i: int| #[trigger] names_at(es, n, i);
                        lemma_lookup_at(es, i);
                        lemma_lookup_at(es2, i);
                    } else {
                        assert(!exists|i: int| #[trigger] names_at(es2, n, i)) by {
                            if exists|i: int| #[trigger] names_at(es2, n, i) {
                                let i = choose|i: int| #[trigger] names_at(es2, n, i);
                                assert(names_at(es, n, i));
                            }
                        }
                    }
                }
            }
        } else {
            proof {
                if p < es.len() {
                    lemma_str_lt_total(es[p as int].0, nv);
                }
            }
            entries.insert(p, (name, kind));
            let ghost es2 = entries_view(entries@);
            assert(es2 =~= es.insert(p as int, (nv, kv)));
            assert forall|i: int, j: int| 0 <= i < j < es2.len() implies str_lt(#[trigger] es2[i].0, #[trigger] es2[j].0) by {
                if j < p {
                } else if j == p {
                } else if i < p {
                    assert(es2[j] == es[j - 1]);
                    if p < es.len() {
                        if j - 1 > p {
                            assert(str_lt(es[p as int].0, es[j - 1].0));
                            lemma_str_lt_transitive(nv, es[p as int].0, es[j - 1].0);
                        }
                        lemma_str_lt_transitive(es2[i].0, nv, es2[j].0);
                    }
                } else if i == p {
                    assert(es2[j] == es[j - 1]);
                    if j - 1 > p {
                        assert(str_lt(es[p as int].0, es[j - 1].0));
                        lemma_str_lt_transitive(nv, es[p as int].0, es[j - 1].0);
                    }
                } else {
                    assert(es2[j] == es[j - 1]);
                    assert(es2[i] == es[i - 1]);
                }
            }
            assert forall|n: Seq<char>| #[trigger] lookup(es2, n) == if n == nv { Some(kv) } else { lookup(es, n) } by {
                if n == nv {
                    lemma_lookup_at(es2, p as int);
                } else {
                    if exists|i: int| #[trigger] names_at(es, n, i) {
                        let i = choose|i: int| #[trigger] names_at(es, n, i);
                        lemma_lookup_at(es, i);
                        if i < p {
                            assert(es2[i] == es[i]);
                            lemma_lookup_at(es2, i);
                        } else {
                            assert(es2[i + 1] == es[i]);
                            lemma_lookup_at(es2, i + 1);
                        }
                    } else {
                        assert(!exists|i: int| #[trigger] names_at(es2, n, i)) by {
                            if exists|i: int| #[trigger] names_at(es2, n, i) {
                                let i = choose|i: int| #[trigger] names_at(es2, n, i);
                                if i < p {
                                    assert(names_at(es, n, i));
                                } else if i > p {
                                    assert(names_at(es, n, i - 1));
                                }
                            }
                        }
                    }
                }
            }
        }
    }
}


impl Versioning {
    /// Builds a versioning from `(package, change type)` pairs; a package named
    /// twice gets the change type of the last pair that names it.
    ///
    /// # Errors
    ///
    /// [`BuildVersioningError::EmptyVersioningError`] when there are no pairs.
    pub fn try_from_iter(pairs: Vec<(PackageName, ChangeType)>) -> (r: Result<
        Versioning,
        BuildVersioningError,
    >)
        ensures
            match r {
                Ok(v) => pairs@.len() > 0 && describes(v@, entries_view(pairs@)),
                Err(e) => pairs@.len() == 0 && e == BuildVersioningError::EmptyVersioningError,
            },
    {
        if pairs.len() == 0 {
            return Err(BuildVersioningError::EmptyVersioningError);
        }
        let ghost ps = entries_view(pairs@);
        let mut entries: Vec<(PackageName, ChangeType)> = Vec::new();
        let mut k: usize = 0;
        let mut rest = pairs;
        assert(ps.take(0) =~= Seq::<(Seq<char>, ChangeKind)>::empty());
        while rest.len() > 0
            invariant
                k + rest@.len() == ps.len(),
                0 < ps.len() <= usize::MAX,
                forall|i: int| 0 <= i < rest@.len() ==> entry_view(#[trigger] rest@[i]) == ps[k + i],
                k > 0 ==> entries@.len() > 0,
                describes(entries_view(entries@), ps.take(k as int)),
            decreases rest@.len(),
        {
            let (name, kind) = rest.remove(0);
            let ghost before = entries_view(entries@);
            let ghost pk = ps[k as int];
            assert(entry_view((name, kind)) == pk);
            Self::insert_entry(&mut entries, name, kind);
            assert(ps.take(k + 1).drop_last() =~= ps.take(k as int));
            assert forall|n: Seq<char>| #[trigger] lookup(entries_view(entries@), n) == last_kind(ps.take(k + 1), n) by {
            }
            k = k + 1;
        }
        assert(ps.take(k as int) =~= ps);
        Ok(Versioning { entries })
    }
}

impl Versioning {
    /// The versioning of a single package.
    pub fn from(pair: (&str, ChangeType)) -> (r: Versioning)
        ensures
            r@ == seq![(pair.0@, pair.1@)],
    {
        let (name, kind) = pair;
        Self::from_pair(String::from_str(name), kind)
    }

    /// The versioning of a single package, named by a `String`.
    pub fn from_pair(name: PackageName, kind: ChangeType) -> (r: Versioning)
        ensures
            r@ == seq![(name@, kind@)],
    {
        let mut entries: Vec<(PackageName, ChangeType)> = Vec::new();
        entries.push((name, kind));
        assert(entries_view(entries@) =~= seq![(name@, kind@)]);
        Versioning { entries }
    }

    /// The entries, in increasing order of package name.
    pub fn iter(&self) -> (r: &[(PackageName, ChangeType)])
        ensures
            entries_view(r@) == self@,
    {
        self.entries.as_slice()
    }

    /// The number of packages.
    pub fn len(&self) -> (r: usize)
        ensures
            r == self@.len(),
            r > 0,
    {
        proof {
            use_type_invariant(self);
        }
        self.entries.len()
    }

    /// Whether no package is named: never, as a versioning names at least one.
    pub fn is_empty(&self) -> (r: bool)
        ensures
            r == (self@.len() == 0),
            !r,
    {
        proof {
            use_type_invariant(self);
        }
        self.entries.len() == 0
    }

    /// The entries, in increasing order of package name.
    pub fn into_entries(self) -> (r: Vec<(PackageName, ChangeType)>)
        ensures
            entries_view(r@) == self@,
    {
        self.entries
    }
}

/// The package names of versioning entries, in order.
pub open spec fn names_of(es: Seq<(Seq<char>, ChangeKind)>) -> Seq<Seq<char>> {
    es.map_values(|e: (Seq<char>, ChangeKind)| e.0)
}

/// A package has a last change type in `ps` exactly when `ps` names it.
pub proof fn lemma_last_kind_some(ps: Seq<(Seq<char>, ChangeKind)>, n: Seq<char>)
    ensures
        last_kind(ps, n) is Some <==> names_of(ps).contains(n),
    decreases ps.len(),
{
    if ps.len() > 0 {
        lemma_last_kind_some(ps.drop_last(), n);
        if names_of(ps.drop_last()).contains(n) {
            let i = choose|i: int| 0 <= i < names_of(ps.drop_last()).len() && names_of(ps.drop_last())[i] == n;
            assert(names_of(ps)[i] == n);
        }
        if names_of(ps).contains(n) && ps.last().0 != n {
            let i = choose|i: int| 0 <= i < names_of(ps).len() && names_of(ps)[i] == n;
            assert(i < ps.len() - 1);
            assert(names_of(ps.drop_last())[i] == n);
        }
        if ps.last().0 == n {
            assert(names_of(ps)[ps.len() - 1] == n);
        }
    }
}

/// Sorted entries name no package twice.
pub proof fn lemma_sorted_no_duplicates(es: Seq<(Seq<char>, ChangeKind)>)
    requires
        sorted_names(es),
    ensures
        names_of(es).no_duplicates(),
{
    assert forall|i: int, j: int| 0 <= i < names_of(es).len() && 0 <= j < names_of(es).len() && i != j
        implies names_of(es)[i] != names_of(es)[j] by {
        if i < j {
            assert(str_lt(es[i].0, es[j].0));
        } else {
            assert(str_lt(es[j].0, es[i].0));
        }
        lemma_str_lt_irreflexive(es[i].0);
    }
}

/// The versioning made of pairs has one entry per package they name, so as
/// many entries as pairs exactly when no package is named twice.
pub proof fn lemma_describes_len(es: Seq<(Seq<char>, ChangeKind)>, ps: Seq<(Seq<char>, ChangeKind)>)
    requires
        describes(es, ps),
    ensures
        es.len() <= ps.len(),
        es.len() == ps.len() <==> names_of(ps).no_duplicates(),
{
    lemma_sorted_no_duplicates(es);
    assert(names_of(es).to_set() =~= names_of(ps).to_set()) by {
        assert forall|n: Seq<char>| names_of(es).to_set().contains(n) <==> names_of(ps).to_set().contains(n) by {
            lemma_last_kind_some(ps, n);
            assert(lookup(es, n) == last_kind(ps, n));
            if names_of(es).contains(n) {
                let i = choose|i: int| 0 <= i < names_of(es).len() && names_of(es)[i] == n;
                assert(names_at(es, n, i));
            }
            if lookup(es, n) is Some {
                let i = choose|i: int| #[trigger] names_at(es, n, i);
                assert(names_of(es)[i] == n);
            }
        }
    }
    names_of(es).unique_seq_to_set();
    names_of(ps).lemma_cardinality_of_set();
    if es.len() == ps.len() {
        names_of(ps).lemma_no_dup_set_cardinality();
    }
    if names_of(ps).no_duplicates() {
        names_of(ps).unique_seq_to_set();
    }
}

/// In sorted entries, `lookup` finds a package exactly at its entry.
proof fn lemma_lookup_sorted(es: Seq<(Seq<char>, ChangeKind)>, n: Seq<char>)
    requires
        sorted_names(es),
    ensures
        lookup(es, n) is None <==> forall|i: int| 0 <= i < es.len() ==> (#[trigger] es[i]).0 != n,
        forall|i: int| 0 <= i < es.len() && (#[trigger] es[i]).0 == n ==> lookup(es, n) == Some(es[i].1),
{
    assert forall|i: int| 0 <= i < es.len() && (#[trigger] es[i]).0 == n implies lookup(es, n) == Some(es[i].1) by {
        lemma_lookup_at(es, i);
    }
    if lookup(es, n) is None {
        assert forall|i: int| 0 <= i < es.len() implies (#[trigger] es[i]).0 != n by {
            if es[i].0 == n {
                assert(names_at(es, n, i));
            }
        }
    }
}

/// Sorted pairs describe themselves.
pub proof fn lemma_describes_sorted(ps: Seq<(Seq<char>, ChangeKind)>)
    requires
        sorted_names(ps),
    ensures
        describes(ps, ps),
    decreases ps.len(),
{
    if ps.len() > 0 {
        let t = ps.drop_last();
        assert(sorted_names(t)) by {
            assert forall|i: int, j: int| 0 <= i < j < t.len() implies str_lt(#[trigger] t[i].0, #[trigger] t[j].0) by {
                assert(t[i] == ps[i]);
                assert(t[j] == ps[j]);
            }
        }
        lemma_describes_sorted(t);
        assert forall|n: Seq<char>| #[trigger] lookup(ps, n) == last_kind(ps, n) by {
            lemma_lookup_sorted(ps, n);
            lemma_lookup_sorted(t, n);
            assert(lookup(t, n) == last_kind(t, n));
            if ps.last().0 == n {
                assert(ps[ps.len() - 1].0 == n);
            } else {
                if lookup(t, n) is Some {
                    let i = choose|i: int| #[trigger] names_at(t, n, i);
                    assert(t[i] == ps[i]);
                    assert(ps[i].0 == n);
                } else {
                    assert forall|i: int| 0 <= i < ps.len() implies (#[trigger] ps[i]).0 != n by {
                        if i < ps.len() - 1 {
                            assert(t[i] == ps[i]);
                        }
                    }
                }
            }
        }
    }
}

/// Two sorted entry sequences that give every package the same change type
/// are the same.
pub proof fn lemma_sorted_lookup_unique(a: Seq<(Seq<char>, ChangeKind)>, b: Seq<(Seq<char>, ChangeKind)>)
    requires
        sorted_names(a),
        sorted_names(b),
        forall|n: Seq<char>| #[trigger] lookup(a, n) == lookup(b, n),
    ensures
        a == b,
    decreases a.len(),
{
    if a.len() == 0 {
        if b.len() > 0 {
            lemma_lookup_sorted(b, b[0].0);
            lemma_lookup_sorted(a, b[0].0);
            assert(lookup(a, b[0].0) == lookup(b, b[0].0));
        }
        assert(a =~= b);
    } else {
        lemma_lookup_sorted(a, a[0].0);
        lemma_lookup_sorted(b, a[0].0);
        assert(lookup(a, a[0].0) == lookup(b, a[0].0));
        assert(b.len() > 0);
        lemma_lookup_sorted(b, b[0].0);
        lemma_lookup_sorted(a, b[0].0);
        assert(lookup(a, b[0].0) == lookup(b, b[0].0));
        // The first names agree: each is the smallest name of both.
        let ja = choose|j: int| 0 <= j < b.len() && (#[trigger] b[j]).0 == a[0].0;
        let jb = choose|j: int| 0 <= j < a.len() && (#[trigger] a[j]).0 == b[0].0;
        assert(a[0].0 == b[0].0) by {
            if a[0].0 != b[0].0 {
                assert(ja != 0);
                assert(jb != 0);
                assert(str_lt(b[0].0, b[ja].0));
                assert(str_lt(a[0].0, a[jb].0));
                lemma_str_lt_asymmetric(a[0].0, b[0].0);
            }
        }
        assert(a[0] == b[0]);
        let a2 = a.drop_first();
        let b2 = b.drop_first();
        assert(sorted_names(a2)) by {
            assert forall|i: int, j: int| 0 <= i < j < a2.len() implies str_lt(#[trigger] a2[i].0, #[trigger] a2[j].0) by {
                assert(a2[i] == a[i + 1]);
                assert(a2[j] == a[j + 1]);
            }
        }
        assert(sorted_names(b2)) by {
            assert forall|i: int, j: int| 0 <= i < j < b2.len() implies str_lt(#[trigger] b2[i].0, #[trigger] b2[j].0) by {
                assert(b2[i] == b[i + 1]);
                assert(b2[j] == b[j + 1]);
            }
        }
        assert forall|n: Seq<char>| #[trigger] lookup(a2, n) == lookup(b2, n) by {
            lemma_lookup_sorted(a, n);
            lemma_lookup_sorted(b, n);
            lemma_lookup_sorted(a2, n);
            lemma_lookup_sorted(b2, n);
            assert(lookup(a, n) == lookup(b, n));
            if n == a[0].0 {
                assert forall|i: int| 0 <= i < a2.len() implies (#[trigger] a2[i]).0 != n by {
                    assert(a2[i] == a[i + 1]);
                    assert(str_lt(a[0].0, a[i + 1].0));
                    lemma_str_lt_irreflexive(n);
                }
                assert forall|i: int| 0 <= i < b2.len() implies (#[trigger] b2[i]).0 != n by {
                    assert(b2[i] == b[i + 1]);
                    assert(str_lt(b[0].0, b[i + 1].0));
                    lemma_str_lt_irreflexive(n);
                }
            } else {
                if lookup(a2, n) is Some {
                    let i = choose|i: int| #[trigger] names_at(a2, n, i);
                    assert(a2[i] == a[i + 1]);
                    let j = choose|j: int| 0 <= j < b.len() && (#[trigger] b[j]).0 == n;
                    assert(j > 0);
                    assert(b2[j - 1] == b[j]);
                } else if lookup(b2, n) is Some {
                    let i = choose|i: int| #[trigger] names_at(b2, n, i);
                    assert(b2[i] == b[i + 1]);
                    let j = choose|j: int| 0 <= j < a.len() && (#[trigger] a[j]).0 == n;
                    assert(j > 0);
                    assert(a2[j - 1] == a[j]);
                }
            }
        }
        lemma_sorted_lookup_unique(a2, b2);
        assert(a =~= seq![a[0]] + a2);
        assert(b =~= seq![b[0]] + b2);
    }
}

/// Pairs describe at most one versioning.
pub proof fn lemma_describes_unique(a: Seq<(Seq<char>, ChangeKind)>, b: Seq<(Seq<char>, ChangeKind)>, ps: Seq<(Seq<char>, ChangeKind)>)
    requires
        describes(a, ps),
        describes(b, ps),
    ensures
        a == b,
{
    assert forall|n: Seq<char>| #[trigger] lookup(a, n) == lookup(b, n) by {
        assert(lookup(a, n) == last_kind(ps, n));
        assert(lookup(b, n) == last_kind(ps, n));
    }
    lemma_sorted_lookup_unique(a, b);
}

/// Writing the change type that a label names gives the label back.
pub proof fn lemma_label_of_kind(s: Seq<char>)
    ensures
        label_of(kind_of_label(s)) == s,
{
}

/// Reading the label of a change type gives it back, unless it is a custom
/// type whose label is `patch`, `minor` or `major`.
pub proof fn lemma_kind_of_label(k: ChangeKind)
    requires
        !(k matches ChangeKind::Custom(s) && (s == patch_word() || s == minor_word() || s == major_word())),
    ensures
        kind_of_label(label_of(k)) == k,
{
    assert(patch_word() != minor_word()) by {
        assert(patch_word()[0] != minor_word()[0]);
    }
    assert(patch_word() != major_word()) by {
        assert(patch_word()[0] != major_word()[0]);
    }
    assert(minor_word() != major_word()) by {
        assert(minor_word()[1] != major_word()[1]);
    }
}

impl Clone for Versioning {
    fn clone(&self) -> (r: Self)
        ensures
            r@ == self@,
    {
        proof {
            use_type_invariant(self);
        }
        let mut entries: Vec<(PackageName, ChangeType)> = Vec::new();
        let mut i: usize = 0;
        while i < self.entries.len()
            invariant
                i <= self.entries@.len(),
                entries_view(entries@) == entries_view(self.entries@).take(i as int),
            decreases self.entries@.len() - i,
        {
            let (name, kind) = &self.entries[i];
            let n2 = name.clone();
            let k2 = kind.clone();
            assert(entry_view((n2, k2)) == entry_view(self.entries@[i as int]));
            let ghost before = entries@;
            entries.push((n2, k2));
            assert(entries@ == before.push((n2, k2)));
            assert(entries_view(entries@) =~= entries_view(before).push(entry_view((n2, k2))));
            assert(entries_view(self.entries@).take(i + 1) =~= entries_view(self.entries@).take(i as int).push(entries_view(self.entries@)[i as int]));
            i = i + 1;
        }
        assert(entries_view(self.entries@).take(i as int) =~= entries_view(self.entries@));
        Versioning { entries }
    }
}

/// The order of change types by rank: `Less`, `Equal` or `Greater`.
pub open spec fn order_of_kinds(a: ChangeKind, b: ChangeKind) -> Ordering {
    if rank(a) < rank(b) {
        Ordering::Less
    } else if rank(a) == rank(b) {
        Ordering::Equal
    } else {
        Ordering::Greater
    }
}

impl PartialOrd for ChangeType {
    /// Compares change types by rank: custom types below `patch`, `patch`
    /// below `minor`, `minor` below `major`; custom types compare equal.
    fn partial_cmp(&self, other: &Self) -> (r: Option<Ordering>) {
        let a = self.rank();
        let b = other.rank();
        if a < b {
            Some(Ordering::Less)
        } else if a == b {
            Some(Ordering::Equal)
        } else {
            Some(Ordering::Greater)
        }
    }
}

impl vstd::std_specs::cmp::PartialOrdSpecImpl for ChangeType {
    open spec fn obeys_partial_cmp_spec() -> bool {
        true
    }

    open spec fn partial_cmp_spec(&self, other: &Self) -> Option<Ordering> {
        Some(order_of_kinds(self@, other@))
    }
}
} // verus!
