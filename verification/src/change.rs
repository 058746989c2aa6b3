//! A change: its unique id, its versioning and its summary, and the change
//! file format that holds one.

use vstd::prelude::*;
use crate::text::{
    chars_of, push_range, string_of, trim_bounds, range_eq, find_char, line_bounds, bounds_of_lines, trim, lines,
    is_blank, join_lines, drop_blank_prefix, first_index_of, lemma_first_index_of_bounds, is_space,
    trim_start, trim_end, strip_cr, lines_from, no_cr_before_lf, lemma_lines_line_first,
    lemma_join_lines_from, lemma_trim_keeps, lemma_first_index_of_concat,
};
use crate::versioning::{
    ChangeType, ChangeKind, Versioning, PackageName, BuildVersioningError, kind_of_label, label_of, describes,
    entries_view, entry_view, names_of, lemma_describes_len, sorted_names, lemma_sorted_no_duplicates,
    lemma_describes_sorted, lemma_describes_unique,
};

verus! {

/// An ASCII letter or digit.
pub open spec fn is_ascii_alnum(c: char) -> bool {
    ('a' <= c <= 'z') || ('A' <= c <= 'Z') || ('0' <= c <= '9')
}

/// The ASCII lower-case form of `c`.
pub open spec fn ascii_lower(c: char) -> char {
    if 'A' <= c <= 'Z' {
        ((c as u32) + 32) as char
    } else {
        c
    }
}

/// What a character becomes in a unique id: letters and digits stay (letters
/// in lower case), a space becomes `_`, and anything else is dropped.
pub open spec fn id_chars(c: char) -> Seq<char> {
    if is_ascii_alnum(c) {
        seq![ascii_lower(c)]
    } else if c == ' ' {
        seq!['_']
    } else {
        seq![]
    }
}

/// The unique id made from a title.
pub open spec fn sanitize(s: Seq<char>) -> Seq<char>
    decreases s.len(),
{
    if s.len() == 0 {
        seq![]
    } else {
        sanitize(s.drop_last()) + id_chars(s.last())
    }
}

/// The unique ID of a [`Change`], taken from and giving the name of its Markdown file.
#[derive(Debug, Eq, PartialEq)]
pub struct UniqueId(String);

impl View for UniqueId {
    type V = Seq<char>;

    closed spec fn view(&self) -> Seq<char> {
        self.0@
    }
}

impl Clone for UniqueId {
    fn clone(&self) -> (r: Self)
        ensures
            r@ == self@,
    {
        UniqueId(self.0.clone())
    }
}

impl UniqueId {
    /// The unique id of a title: ASCII letters and digits, in lower case, with
    /// `_` for each space; all other characters are left out.
    pub fn from(s: &str) -> (r: UniqueId)
        ensures
            r@ == sanitize(s@),
    {
        let v = chars_of(s);
        let mut out = String::new();
        let mut i: usize = 0;
        while i < v.len()
            invariant
                i <= v@.len(),
                v@ == s@,
                out@ == sanitize(v@.take(i as int)),
            decreases v@.len() - i,
        {
            let c = v[i];
            assert(v@.take(i + 1).drop_last() =~= v@.take(i as int));
            if ('a' <= c && c <= 'z') || ('0' <= c && c <= '9') {
                out.push(c);
            } else if 'A' <= c && c <= 'Z' {
                out.push(((c as u8) + 32) as char);
            } else if c == ' ' {
                out.push('_');
            }
            assert(out@ =~= sanitize(v@.take(i + 1)));
            i = i + 1;
        }
        assert(v@.take(v@.len() as int) =~= v@);
        UniqueId(out)
    }
}


impl UniqueId {
    /// The unique id `s`, taken as it is.
    pub fn exact(s: &str) -> (r: UniqueId)
        ensures
            r@ == s@,
    {
        UniqueId(String::from_str(s))
    }

    /// The unique id as a string slice.
    pub fn as_str(&self) -> (r: &str)
        ensures
            r@ == self@,
    {
        self.0.as_str()
    }

    /// The unique id as a string.
    pub fn to_string(&self) -> (r: String)
        ensures
            r@ == self@,
    {
        self.0.clone()
    }

    /// The name of the Markdown file of the change: the unique id and `.md`.
    pub fn to_file_name(&self) -> (r: String)
        ensures
            r@ == self@ + md_suffix(),
    {
        let mut r = self.0.clone();
        r.push('.');
        r.push('m');
        r.push('d');
        assert(r@ =~= self@ + md_suffix());
        r
    }

    /// The unique id of the change in the file named `file_name`: the name
    /// without `.md`, as it is; `None` when the name does not end in `.md`.
    pub fn from_file_name(file_name: &str) -> (r: Option<UniqueId>)
        ensures
            r matches Some(id) ==> file_name@.len() >= 3 && file_name@.skip(file_name@.len() - 3) == md_suffix()
                && id@ == file_name@.take(file_name@.len() - 3),
            r is None ==> !(file_name@.len() >= 3 && file_name@.skip(file_name@.len() - 3) == md_suffix()),
    {
        let v = chars_of(file_name);
        let n = v.len();
        if n < 3 || v[n - 3] != '.' || v[n - 2] != 'm' || v[n - 1] != 'd' {
            proof {
                if n >= 3 && v@.skip(n - 3) == md_suffix() {
                    assert(v@.skip(n - 3)[0] == v@[n - 3]);
                    assert(v@.skip(n - 3)[1] == v@[n - 2]);
                    assert(v@.skip(n - 3)[2] == v@[n - 1]);
                }
            }
            return None;
        }
        assert(v@.skip(n - 3) =~= md_suffix());
        let stem = string_of(&v, 0, n - 3);
        assert(v@.subrange(0, n - 3) =~= v@.take(n - 3));
        Some(UniqueId(stem))
    }
}

/// The characters `.md`.
pub open spec fn md_suffix() -> Seq<char> {
    seq!['.', 'm', 'd']
}

/// The characters `---`.
pub open spec fn fence() -> Seq<char> {
    seq!['-', '-', '-']
}

/// A line that opens or closes the front matter: `---`, give or take white space.
pub open spec fn is_fence(l: Seq<char>) -> bool {
    trim(l) == fence()
}

/// The position of the first fence among the lines, or their number.
pub open spec fn first_fence(ls: Seq<Seq<char>>) -> int
    decreases ls.len(),
{
    if ls.len() == 0 {
        0
    } else if is_fence(ls[0]) {
        0
    } else {
        1 + first_fence(ls.drop_first())
    }
}

/// The `(package, change type)` pair of a front matter line: the text before
/// its first `:` and the text after it, trimmed.
pub open spec fn pair_of_line(l: Seq<char>) -> (Seq<char>, ChangeKind) {
    let c = first_index_of(l, ':');
    (trim(l.take(c)), kind_of_label(trim(l.skip(c + 1))))
}

/// What a change file holds: the `(package, change type)` pairs of its front
/// matter, in order, and its summary; or why it is not a change file.
///
/// The first line must be a fence; the front matter runs to the next fence;
/// each of its lines must hold a `:`, and there must be at least one; the
/// closing fence must be there and no package may be named twice. The summary
/// is the lines after the closing fence, from the first one that is not blank,
/// joined by `\n`.
pub open spec fn parse_change(content: Seq<char>) -> Result<
    (Seq<(Seq<char>, ChangeKind)>, Seq<char>),
    ParsingError,
> {
    let ls = lines(content);
    if ls.len() == 0 || !is_fence(ls[0]) {
        Err(ParsingError::MissingFrontMatter)
    } else {
        let rest = ls.drop_first();
        let k = first_fence(rest);
        let front = rest.take(k);
        if exists|j: int| 0 <= j < k && !(#[trigger] front[j]).contains(':') {
            Err(ParsingError::InvalidFrontMatter)
        } else if k == 0 {
            Err(ParsingError::InvalidVersioning(BuildVersioningError::EmptyVersioningError))
        } else {
            let ps = front.map_values(|l: Seq<char>| pair_of_line(l));
            if k == rest.len() || !names_of(ps).no_duplicates() {
                Err(ParsingError::InvalidFrontMatter)
            } else {
                Ok((ps, join_lines(drop_blank_prefix(rest.skip(k + 1)))))
            }
        }
    }
}

/// `first_fence` is the position of the first fence.
pub proof fn lemma_first_fence(ls: Seq<Seq<char>>, m: int)
    requires
        0 <= m <= ls.len(),
        forall|i: int| 0 <= i < m ==> !is_fence(#[trigger] ls[i]),
        m == ls.len() || is_fence(ls[m]),
    ensures
        first_fence(ls) == m,
    decreases m,
{
    if m > 0 {
        assert(!is_fence(ls[0]));
        lemma_first_fence(ls.drop_first(), m - 1);
    }
}

/// Why the text of a change file is not one.
#[derive(Clone, Copy, Debug, PartialEq, Eq, Structural)]
pub enum ParsingError {
    /// The file does not open with a `---` line.
    MissingFrontMatter,
    /// A front matter line has no `:`, the front matter is not closed, or it
    /// names a package twice.
    InvalidFrontMatter,
    /// The front matter names no package.
    InvalidVersioning(BuildVersioningError),
}

/// A single [change](https://github.com/knope-dev/changesets#terminology), which applies to
/// any number of packages.
#[derive(Clone, Debug, Eq, PartialEq)]
pub struct Change {
    /// Something to uniquely identify a change: the name of its file, without `.md`.
    pub unique_id: UniqueId,
    /// How the change affects the packages it names.
    pub versioning: Versioning,
    /// The details of the change, to be written to a changelog.
    pub summary: String,
}

/// Whether `v[lo..hi]` is a fence.
fn range_is_fence(v: &Vec<char>, lo: usize, hi: usize) -> (r: bool)
    requires
        lo <= hi <= v@.len(),
    ensures
        r == is_fence(v@.subrange(lo as int, hi as int)),
{
    let (a, b) = trim_bounds(v, lo, hi);
    let f = vec!['-', '-', '-'];
    assert(f@ =~= fence());
    range_eq(v, a, b, &f)
}

/// Whether `v[lo..hi]` is blank.
fn range_is_blank(v: &Vec<char>, lo: usize, hi: usize) -> (r: bool)
    requires
        lo <= hi <= v@.len(),
    ensures
        r == is_blank(v@.subrange(lo as int, hi as int)),
{
    let (a, b) = trim_bounds(v, lo, hi);
    a == b
}

impl Change {
    /// Reads a change with the id `unique_id` from the text of its file.
    ///
    /// # Errors
    ///
    /// As [`parse_change`] says.
    pub fn from_str(unique_id: UniqueId, content: &str) -> (r: Result<Change, ParsingError>)
        ensures
            match (r, parse_change(content@)) {
                (Ok(c), Ok((ps, summary))) => c.unique_id@ == unique_id@ && describes(c.versioning@, ps)
                    && c.summary@ == summary,
                (Err(e), Err(f)) => e == f,
                _ => false,
            },
    {
        let v = chars_of(content);
        let lb = line_bounds(&v);
        let ghost ls = lines(content@);
        if lb.len() == 0 {
            return Err(ParsingError::MissingFrontMatter);
        }
        assert(ls[0] == v@.subrange(lb@[0].0 as int, lb@[0].1 as int));
        if !range_is_fence(&v, lb[0].0, lb[0].1) {
            return Err(ParsingError::MissingFrontMatter);
        }
        let ghost rest = ls.drop_first();
        let mut pairs: Vec<(PackageName, ChangeType)> = Vec::new();
        let mut j: usize = 1;
        while j < lb.len()
            invariant_except_break
                1 <= j <= lb@.len(),
                lb@.len() == ls.len(),
                v@ == content@,
                ls == lines(content@),
                ls.len() > 0,
                is_fence(ls[0]),
                rest == ls.drop_first(),
                bounds_of_lines(v@, lb@),
                forall|i: int| 0 <= i < j - 1 ==> !is_fence(#[trigger] rest[i]),
                forall|i: int| 0 <= i < j - 1 ==> (#[trigger] rest[i]).contains(':'),
                entries_view(pairs@) == rest.take(j - 1).map_values(|l: Seq<char>| pair_of_line(l)),
            ensures
                1 <= j <= lb@.len(),
                forall|i: int| 0 <= i < j - 1 ==> !is_fence(#[trigger] rest[i]),
                forall|i: int| 0 <= i < j - 1 ==> (#[trigger] rest[i]).contains(':'),
                entries_view(pairs@) == rest.take(j - 1).map_values(|l: Seq<char>| pair_of_line(l)),
                j == lb@.len() || is_fence(rest[j - 1]),
            decreases lb@.len() - j,
        {
            let (a, b) = lb[j];
            let ghost l = v@.subrange(a as int, b as int);
            assert(l == rest[j - 1]);
            if range_is_fence(&v, a, b) {
                break;
            }
            let c = find_char(&v, a, b, ':');
            proof {
                lemma_first_index_of_bounds(l, ':');
            }
            if c == b - a {
                proof {
                    assert(!l.contains(':'));
                    assert(!is_fence(l));
                    assert forall|i: int| 0 <= i < j implies !is_fence(#[trigger] rest[i]) by {
                        if i == j - 1 {
                            assert(rest[i] == l);
                        }
                    }
                    lemma_first_fence_at_least(rest, j as int);
                    let ff = first_fence(rest);
                    assert(rest.take(ff)[j - 1] == rest[j - 1]);
                    assert(!(rest.take(ff)[j - 1]).contains(':'));
                }
                return Err(ParsingError::InvalidFrontMatter);
            }
            let (na, nb) = trim_bounds(&v, a, a + c);
            let name = string_of(&v, na, nb);
            let (ka, kb) = trim_bounds(&v, a + c + 1, b);
            let label = string_of(&v, ka, kb);
            let kind = ChangeType::from(label.as_str());
            proof {
                assert(l.take(c as int) =~= v@.subrange(a as int, a + c));
                assert(l.skip(c + 1) =~= v@.subrange(a + c + 1, b as int));
                assert(l.contains(':')) by {
                    assert(l[c as int] == ':');
                }
            }
            let ghost old_pairs = pairs@;
            pairs.push((name, kind));
            assert(entries_view(pairs@) =~= entries_view(old_pairs).push(pair_of_line(l)));
            assert(rest.take(j as int) =~= rest.take(j - 1).push(l));
            assert(rest.take(j as int).map_values(|l: Seq<char>| pair_of_line(l)) =~= rest.take(
                j - 1,
            ).map_values(|l: Seq<char>| pair_of_line(l)).push(pair_of_line(l)));
            j = j + 1;
        }
        let ghost k = j - 1;
        proof {
            lemma_first_fence(rest, k);
            assert forall|i: int| 0 <= i < k implies (#[trigger] rest.take(k)[i]).contains(':') by {
                assert(rest.take(k)[i] == rest[i]);
            }
        }
        let ghost ps = rest.take(k).map_values(|l: Seq<char>| pair_of_line(l));
        let versioning = match Versioning::try_from_iter(pairs) {
            Ok(versioning) => versioning,
            Err(e) => {
                return Err(ParsingError::InvalidVersioning(e));
            },
        };
        let n = versioning.len();
        proof {
            lemma_describes_len(versioning@, ps);
        }
        let close = 1 + n;
        if close >= lb.len() || !range_is_fence(&v, lb[close].0, lb[close].1) {
            proof {
                if close < lb.len() {
                    assert(rest[close - 1] == ls[close as int]);
                }
            }
            return Err(ParsingError::InvalidFrontMatter);
        }
        proof {
            if n < k {
                assert(!is_fence(rest[n as int]));
                assert(rest[n as int] == ls[close as int]);
            }
            assert(n == k);
        }
        let mut m = close + 1;
        assert(rest.skip(k + 1) =~= ls.skip(m as int));
        while m < lb.len() && range_is_blank(&v, lb[m].0, lb[m].1)
            invariant
                close < m <= lb@.len(),
                lb@.len() == ls.len(),
                ls == lines(content@),
                v@ == content@,
                bounds_of_lines(v@, lb@),
                drop_blank_prefix(rest.skip(k + 1)) == drop_blank_prefix(ls.skip(m as int)),
            decreases lb@.len() - m,
        {
            assert(ls.skip(m as int).drop_first() =~= ls.skip(m + 1));
            assert(ls.skip(m as int)[0] == ls[m as int]);
            m = m + 1;
        }
        proof {
            if m < lb.len() {
                assert(ls.skip(m as int)[0] == ls[m as int]);
            }
            assert(drop_blank_prefix(ls.skip(m as int)) == ls.skip(m as int));
        }
        let mut summary = String::new();
        let start = m;
        assert(ls.subrange(start as int, start as int) =~= Seq::<Seq<char>>::empty());
        while m < lb.len()
            invariant
                start <= m <= lb@.len(),
                lb@.len() == ls.len(),
                ls == lines(content@),
                v@ == content@,
                bounds_of_lines(v@, lb@),
                summary@ == join_lines(ls.subrange(start as int, m as int)),
            decreases lb@.len() - m,
        {
            let ghost before = ls.subrange(start as int, m as int);
            if m > start {
                summary.push('\n');
            }
            push_range(&mut summary, &v, lb[m].0, lb[m].1);
            let ghost after = ls.subrange(start as int, m + 1);
            assert(after.drop_last() =~= before);
            assert(after.last() == ls[m as int]);
            m = m + 1;
        }
        assert(ls.subrange(start as int, m as int) =~= ls.skip(start as int));
        Ok(Change { unique_id, versioning, summary })
    }
}

/// `first_fence` is at least `m` when no line before `m` is a fence.
pub proof fn lemma_first_fence_at_least(ls: Seq<Seq<char>>, m: int)
    requires
        0 <= m <= ls.len(),
        forall|i: int| 0 <= i < m ==> !is_fence(#[trigger] ls[i]),
    ensures
        first_fence(ls) >= m,
        first_fence(ls) <= ls.len(),
    decreases ls.len(),
{
    if ls.len() > 0 && !is_fence(ls[0]) {
        if m > 0 {
            assert forall|i: int| 0 <= i < m - 1 implies !is_fence(#[trigger] ls.drop_first()[i]) by {
                assert(ls.drop_first()[i] == ls[i + 1]);
            }
            lemma_first_fence_at_least(ls.drop_first(), m - 1);
        } else {
            lemma_first_fence_at_least(ls.drop_first(), 0);
        }
    }
}

/// The front matter line of a versioning entry: `package: change type`.
pub open spec fn entry_line(e: (Seq<char>, ChangeKind)) -> Seq<char> {
    e.0 + seq![':', ' '] + label_of(e.1) + seq!['\n']
}

/// The front matter lines of versioning entries, in order.
pub open spec fn entry_lines(es: Seq<(Seq<char>, ChangeKind)>) -> Seq<char>
    decreases es.len(),
{
    if es.len() == 0 {
        seq![]
    } else {
        entry_lines(es.drop_last()) + entry_line(es.last())
    }
}

/// The text of the change file of a change with versioning `es` and summary
/// `summary`: the front matter between two `---` lines, an empty line, the
/// summary and a line break.
pub open spec fn render_change(es: Seq<(Seq<char>, ChangeKind)>, summary: Seq<char>) -> Seq<char> {
    fence() + seq!['\n'] + entry_lines(es) + fence() + seq!['\n', '\n'] + summary + seq!['\n']
}

/// A change as plain values: its unique id, its versioning entries (sorted by
/// package name) and its summary.
pub struct ChangeView {
    pub unique_id: Seq<char>,
    pub versioning: Seq<(Seq<char>, ChangeKind)>,
    pub summary: Seq<char>,
}

impl View for Change {
    type V = ChangeView;

    open spec fn view(&self) -> ChangeView {
        ChangeView { unique_id: self.unique_id@, versioning: self.versioning@, summary: self.summary@ }
    }
}

/// Appends `---` and a line break.
fn push_fence(out: &mut String)
    ensures
        final(out)@ == old(out)@ + fence() + seq!['\n'],
{
    out.push('-');
    out.push('-');
    out.push('-');
    out.push('\n');
    assert(out@ =~= old(out)@ + fence() + seq!['\n']);
}

impl Change {
    /// The text of the change file of this change.
    pub fn to_string(&self) -> (r: String)
        ensures
            r@ == render_change(self.versioning@, self.summary@),
    {
        let mut out = String::new();
        push_fence(&mut out);
        let entries = self.versioning.iter();
        let ghost es = self.versioning@;
        let ghost head = out@;
        let mut i: usize = 0;
        assert(es.take(0) =~= Seq::<(Seq<char>, ChangeKind)>::empty());
        while i < entries.len()
            invariant
                i <= entries@.len(),
                entries_view(entries@) == es,
                out@ == head + entry_lines(es.take(i as int)),
            decreases entries@.len() - i,
        {
            let (name, kind) = &entries[i];
            let label = kind.to_string();
            out.append(name.as_str());
            out.push(':');
            out.push(' ');
            out.append(label.as_str());
            out.push('\n');
            assert(es[i as int] == entry_view(entries@[i as int]));
            assert(es.take(i + 1).drop_last() =~= es.take(i as int));
            assert(out@ =~= head + entry_lines(es.take(i + 1)));
            i = i + 1;
        }
        assert(es.take(i as int) =~= es);
        push_fence(&mut out);
        out.push('\n');
        out.append(self.summary.as_str());
        out.push('\n');
        assert(out@ =~= render_change(es, self.summary@));
        out
    }
}

impl ParsingError {
    /// The message of this error.
    pub fn to_string(&self) -> (r: String)
        ensures
            r@ == match self {
                ParsingError::MissingFrontMatter => "missing front matter"@,
                ParsingError::InvalidFrontMatter => "invalid front matter"@,
                ParsingError::InvalidVersioning(e) => "invalid front matter: "@ + "Versioning needs to contain at least one item."@,
            },
    {
        match self {
            ParsingError::MissingFrontMatter => String::from_str("missing front matter"),
            ParsingError::InvalidFrontMatter => String::from_str("invalid front matter"),
            ParsingError::InvalidVersioning(e) => {
                let mut r = String::from_str("invalid front matter: ");
                let m = e.to_string();
                r.append(m.as_str());
                r
            },
        }
    }
}

impl From<BuildVersioningError> for ParsingError {
    fn from(err: BuildVersioningError) -> (r: Self) {
        ParsingError::InvalidVersioning(err)
    }
}

impl vstd::std_specs::convert::FromSpecImpl<BuildVersioningError> for ParsingError {
    open spec fn obeys_from_spec() -> bool {
        true
    }

    open spec fn from_spec(err: BuildVersioningError) -> Self {
        ParsingError::InvalidVersioning(err)
    }
}

/// `std::io::Error`, the error of a failed read or write, carried through as it is.
#[verifier::external_type_specification]
#[verifier::external_body]
pub struct ExIoError(std::io::Error);

/// Why a change could not be loaded from a file.
#[derive(Debug)]
pub enum LoadingError {
    /// The file's name does not end in `.md`.
    InvalidFileName,
    /// The file could not be read.
    Io(std::io::Error),
    /// The file's text is not a change.
    Parsing(ParsingError),
}

/// The message of an I/O error, as `Display` writes it (`io::Error::to_string`).
/// What it says comes from the operating system; nothing is stated of it.
#[verifier::external_body]
fn io_error_message(err: &std::io::Error) -> String {
    err.to_string()
}

impl LoadingError {
    /// The message of this error.
    pub fn to_string(&self) -> (r: String)
        ensures
            match self {
                LoadingError::InvalidFileName => r@ == "invalid file name"@,
                LoadingError::Parsing(e) => r@ == match e {
                    ParsingError::MissingFrontMatter => "missing front matter"@,
                    ParsingError::InvalidFrontMatter => "invalid front matter"@,
                    ParsingError::InvalidVersioning(_) => "invalid front matter: "@ + "Versioning needs to contain at least one item."@,
                },
                LoadingError::Io(_) => true,
            },
    {
        match self {
            LoadingError::InvalidFileName => String::from_str("invalid file name"),
            LoadingError::Io(err) => io_error_message(err),
            LoadingError::Parsing(err) => err.to_string(),
        }
    }
}

impl From<ParsingError> for LoadingError {
    fn from(err: ParsingError) -> (r: Self) {
        LoadingError::Parsing(err)
    }
}

impl vstd::std_specs::convert::FromSpecImpl<ParsingError> for LoadingError {
    open spec fn obeys_from_spec() -> bool {
        true
    }

    open spec fn from_spec(err: ParsingError) -> Self {
        LoadingError::Parsing(err)
    }
}

impl From<std::io::Error> for LoadingError {
    fn from(err: std::io::Error) -> (r: Self) {
        LoadingError::Io(err)
    }
}

impl vstd::std_specs::convert::FromSpecImpl<std::io::Error> for LoadingError {
    open spec fn obeys_from_spec() -> bool {
        true
    }

    open spec fn from_spec(err: std::io::Error) -> Self {
        LoadingError::Io(err)
    }
}

/// The front matter line of an entry, without its line break.
pub open spec fn entry_text(e: (Seq<char>, ChangeKind)) -> Seq<char> {
    e.0 + seq![':', ' '] + label_of(e.1)
}

/// An entry that reads back as itself from its front matter line: the name
/// holds no line break and no `:` and is already trimmed, and the label holds
/// no line break, is already trimmed and names the change type (a custom label
/// other than `patch`, `minor` and `major`).
pub open spec fn writable_entry(e: (Seq<char>, ChangeKind)) -> bool {
    &&& !e.0.contains('\n')
    &&& !e.0.contains(':')
    &&& trim(e.0) == e.0
    &&& !label_of(e.1).contains('\n')
    &&& trim(label_of(e.1)) == label_of(e.1)
    &&& kind_of_label(label_of(e.1)) == e.1
}

/// A summary that reads back as itself: no `\r` stands before a line break,
/// it does not end in `\r`, and it is empty or its first line is not blank.
pub open spec fn writable_summary(s: Seq<char>) -> bool {
    &&& no_cr_before_lf(s + seq!['\n'])
    &&& (s.len() == 0 || !is_blank(lines(s + seq!['\n'])[0]))
}

/// Trimming never makes a string longer.
proof fn lemma_trim_len(s: Seq<char>)
    ensures
        trim_start(s).len() <= s.len(),
        trim_end(s).len() <= s.len(),
        trim_start(s).len() == s.len() ==> trim_start(s) == s,
        trim_end(s).len() == s.len() ==> trim_end(s) == s,
    decreases s.len(),
{
    if s.len() > 0 {
        lemma_trim_len(s.drop_first());
        lemma_trim_len(s.drop_last());
    }
}

/// A trimmed string neither starts nor ends with white space.
proof fn lemma_trimmed_ends(s: Seq<char>)
    requires
        trim(s) == s,
        s.len() > 0,
    ensures
        !is_space(s[0]),
        !is_space(s.last()),
{
    lemma_trim_len(s);
    lemma_trim_len(trim_start(s));
    if is_space(s[0]) {
        lemma_trim_len(s.drop_first());
    }
    assert(trim_start(s) == s);
    if is_space(s.last()) {
        lemma_trim_len(s.drop_last());
    }
}

/// A string without `c` does not hold it anywhere.
proof fn lemma_not_contains(s: Seq<char>, c: char, i: int)
    requires
        !s.contains(c),
        0 <= i < s.len(),
    ensures
        s[i] != c,
{
}

/// The facts about the front matter line of a writable entry.
proof fn lemma_entry_text(e: (Seq<char>, ChangeKind))
    requires
        writable_entry(e),
    ensures
        !entry_text(e).contains('\n'),
        strip_cr(entry_text(e)) == entry_text(e),
        entry_text(e).contains(':'),
        !is_fence(entry_text(e)),
        pair_of_line(entry_text(e)) == e,
{
    let n = e.0;
    let l = label_of(e.1);
    let t = entry_text(e);
    assert(t.len() == n.len() + 2 + l.len());
    assert forall|i: int| 0 <= i < t.len() implies t[i] != '\n' by {
        if i < n.len() {
            assert(t[i] == n[i]);
            lemma_not_contains(n, '\n', i);
        } else if i >= n.len() + 2 {
            assert(t[i] == l[i - n.len() - 2]);
            lemma_not_contains(l, '\n', i - n.len() - 2);
        }
    }
    assert(t[n.len() as int] == ':');
    assert(strip_cr(t) == t) by {
        if l.len() > 0 {
            lemma_trimmed_ends(l);
            assert(t.last() == l.last());
        } else {
            assert(t.last() == ' ');
        }
    }
    lemma_trim_keeps(t, n.len() as int);
    assert(!is_fence(t)) by {
        if is_fence(t) {
            let j = choose|j: int| 0 <= j < trim(t).len() && trim(t)[j] == ':';
            assert(fence()[j] == ':');
        }
    }
    assert(t =~= n + (seq![':', ' '] + l));
    lemma_first_index_of_concat(n, seq![':', ' '] + l, ':');
    assert((seq![':', ' '] + l)[0] == ':');
    assert(first_index_of(t, ':') == n.len());
    assert(t.take(n.len() as int) =~= n);
    let after = t.skip(n.len() as int + 1);
    assert(after =~= seq![' '] + l);
    assert(after[0] == ' ');
    assert(after.drop_first() =~= l);
    assert(trim_start(after) == trim_start(l));
}

/// The lines of the front matter lines of writable entries are their texts.
proof fn lemma_lines_entries(es: Seq<(Seq<char>, ChangeKind)>, r: Seq<char>)
    requires
        forall|i: int| 0 <= i < es.len() ==> writable_entry(#[trigger] es[i]),
    ensures
        lines(entry_lines(es) + r) == es.map_values(|e: (Seq<char>, ChangeKind)| entry_text(e)) + lines(r),
    decreases es.len(),
{
    let texts = es.map_values(|e: (Seq<char>, ChangeKind)| entry_text(e));
    if es.len() == 0 {
        assert(entry_lines(es) + r =~= r);
        assert(texts + lines(r) =~= lines(r));
    } else {
        let t = es.drop_last();
        let e = es.last();
        assert(es[es.len() - 1] == e);
        lemma_entry_text(e);
        assert(entry_line(e) =~= entry_text(e) + seq!['\n']);
        let r2 = entry_line(e) + r;
        assert(entry_lines(es) + r =~= entry_lines(t) + r2);
        assert forall|i: int| 0 <= i < t.len() implies writable_entry(#[trigger] t[i]) by {
            assert(t[i] == es[i]);
        }
        lemma_lines_entries(t, r2);
        assert(r2 =~= entry_text(e) + seq!['\n'] + r);
        lemma_lines_line_first(entry_text(e), r);
        let t_texts = t.map_values(|e: (Seq<char>, ChangeKind)| entry_text(e));
        assert(texts =~= t_texts.push(entry_text(e)));
        assert(t_texts + (seq![entry_text(e)] + lines(r)) =~= texts + lines(r));
    }
}

/// Text that opens with a fence, then holds the front matter lines of
/// writable entries and a closing fence, reads as those entries, with the
/// summary taken from the rest as `parse_change` says.
proof fn lemma_parse_front_matter(es: Seq<(Seq<char>, ChangeKind)>, body: Seq<char>)
    requires
        es.len() > 0,
        sorted_names(es),
        forall|i: int| 0 <= i < es.len() ==> writable_entry(#[trigger] es[i]),
    ensures
        parse_change(seq!['-', '-', '-', '\n'] + entry_lines(es) + seq!['-', '-', '-', '\n'] + body)
            == Ok::<_, ParsingError>((es, join_lines(drop_blank_prefix(lines(body))))),
{
    let f = fence();
    let nl = seq!['\n'];
    let content = seq!['-', '-', '-', '\n'] + entry_lines(es) + seq!['-', '-', '-', '\n'] + body;
    let texts = es.map_values(|e: (Seq<char>, ChangeKind)| entry_text(e));
    let x = f + nl + body;
    assert(trim_start(f) == f);
    assert(trim_end(f) == f);
    assert(is_fence(f));
    assert(!f.contains('\n')) by {
        if f.contains('\n') {
            let j = choose|j: int| 0 <= j < f.len() && f[j] == '\n';
        }
    }
    assert(strip_cr(f) == f);
    assert(content =~= f + nl + (entry_lines(es) + x));
    lemma_lines_line_first(f, entry_lines(es) + x);
    lemma_lines_entries(es, x);
    lemma_lines_line_first(f, body);
    let ll = lines(body);
    let ls = lines(content);
    assert(ls =~= seq![f] + (texts + (seq![f] + ll)));
    let rest = ls.drop_first();
    assert(rest =~= texts + (seq![f] + ll));
    let k = es.len() as int;
    assert forall|i: int| 0 <= i < k implies !is_fence(#[trigger] rest[i]) by {
        assert(rest[i] == entry_text(es[i]));
        lemma_entry_text(es[i]);
    }
    assert(rest[k] == f);
    lemma_first_fence(rest, k);
    let front = rest.take(k);
    assert(front =~= texts);
    assert forall|j: int| 0 <= j < k implies (#[trigger] front[j]).contains(':') by {
        lemma_entry_text(es[j]);
    }
    let ps = front.map_values(|l: Seq<char>| pair_of_line(l));
    assert(ps =~= es) by {
        assert forall|i: int| 0 <= i < k implies ps[i] == es[i] by {
            lemma_entry_text(es[i]);
        }
    }
    lemma_sorted_no_duplicates(es);
    assert(rest.skip(k + 1) =~= ll);
}

/// Splitting a writable summary with a line break after it into lines and
/// joining them gives the summary back.
proof fn lemma_summary_lines(summary: Seq<char>)
    requires
        writable_summary(summary),
    ensures
        join_lines(drop_blank_prefix(lines(summary + seq!['\n']))) == summary,
{
    let sl = summary + seq!['\n'];
    let ll = lines(sl);
    assert(no_cr_before_lf(Seq::<char>::empty() + sl)) by {
        assert(Seq::<char>::empty() + sl =~= sl);
    }
    assert(sl.last() == '\n');
    assert(!Seq::<char>::empty().contains('\n'));
    lemma_join_lines_from(sl, seq![]);
    assert(Seq::<char>::empty() + sl.drop_last() =~= summary);
    if summary.len() == 0 {
        assert(sl =~= seq!['\n']);
        assert(sl.drop_first() =~= Seq::<char>::empty());
        assert(ll =~= seq![Seq::<char>::empty()]) by {
            assert(lines_from(sl.drop_first(), seq![]) =~= Seq::<Seq<char>>::empty());
        }
        assert(trim(Seq::<char>::empty()) =~= Seq::<char>::empty());
        assert(drop_blank_prefix(ll.drop_first()) =~= Seq::<Seq<char>>::empty());
        assert(join_lines(Seq::<Seq<char>>::empty()) =~= summary);
    } else {
        assert(drop_blank_prefix(ll) == ll);
    }
}

/// The change file of a change reads back as that change: parsing the text
/// that [`Change::to_string`] writes gives back its versioning entries and its
/// summary, when its entries and summary are writable (see
/// [`writable_entry`] and [`writable_summary`]); and the versioning read is
/// then the change's own.
pub proof fn lemma_change_round_trip(es: Seq<(Seq<char>, ChangeKind)>, summary: Seq<char>)
    requires
        es.len() > 0,
        sorted_names(es),
        forall|i: int| 0 <= i < es.len() ==> writable_entry(#[trigger] es[i]),
        writable_summary(summary),
    ensures
        parse_change(render_change(es, summary)) == Ok::<_, ParsingError>((es, summary)),
        forall|v: Seq<(Seq<char>, ChangeKind)>| describes(v, es) ==> v == es,
{
    let body = seq!['\n'] + summary + seq!['\n'];
    assert(render_change(es, summary) =~= seq!['-', '-', '-', '\n'] + entry_lines(es) + seq![
        '-',
        '-',
        '-',
        '\n',
    ] + body);
    lemma_parse_front_matter(es, body);
    // The blank line before the summary is skipped.
    assert(body =~= Seq::<char>::empty() + seq!['\n'] + (summary + seq!['\n']));
    assert(!Seq::<char>::empty().contains('\n'));
    lemma_lines_line_first(Seq::<char>::empty(), summary + seq!['\n']);
    assert(strip_cr(Seq::<char>::empty()) =~= Seq::<char>::empty());
    let ll = lines(summary + seq!['\n']);
    assert(lines(body) =~= seq![Seq::<char>::empty()] + ll);
    assert(trim(Seq::<char>::empty()) =~= Seq::<char>::empty());
    assert((seq![Seq::<char>::empty()] + ll).drop_first() =~= ll);
    assert(drop_blank_prefix(lines(body)) == drop_blank_prefix(ll));
    lemma_summary_lines(summary);
    lemma_describes_sorted(es);
    assert forall|v: Seq<(Seq<char>, ChangeKind)>| describes(v, es) implies v == es by {
        lemma_describes_unique(v, es, es);
    }
}

/// The summary may follow the closing fence directly: a writable, non-empty
/// summary written right after `---` and read back is the whole summary; no
/// line of it is dropped.
pub proof fn lemma_summary_after_fence(es: Seq<(Seq<char>, ChangeKind)>, summary: Seq<char>)
    requires
        es.len() > 0,
        sorted_names(es),
        forall|i: int| 0 <= i < es.len() ==> writable_entry(#[trigger] es[i]),
        writable_summary(summary),
        summary.len() > 0,
    ensures
        parse_change(seq!['-', '-', '-', '\n'] + entry_lines(es) + seq!['-', '-', '-', '\n'] + summary
            + seq!['\n']) == Ok::<_, ParsingError>((es, summary)),
{
    let t = seq!['-', '-', '-', '\n'] + entry_lines(es) + seq!['-', '-', '-', '\n'] + summary + seq!['\n'];
    assert(t =~= seq!['-', '-', '-', '\n'] + entry_lines(es) + seq!['-', '-', '-', '\n'] + (summary
        + seq!['\n']));
    lemma_parse_front_matter(es, summary + seq!['\n']);
    lemma_summary_lines(summary);
}

/// A single summary line `l` right after the closing fence, starting with a
/// character that is not white space and holding no line break or carriage
/// return, is read as the summary, whole.
pub proof fn lemma_single_line_summary(es: Seq<(Seq<char>, ChangeKind)>, l: Seq<char>)
    requires
        es.len() > 0,
        sorted_names(es),
        forall|i: int| 0 <= i < es.len() ==> writable_entry(#[trigger] es[i]),
        l.len() > 0,
        !is_space(l[0]),
        !l.contains('\n'),
        !l.contains('\r'),
    ensures
        parse_change(seq!['-', '-', '-', '\n'] + entry_lines(es) + seq!['-', '-', '-', '\n'] + l + seq![
            '\n',
        ]) == Ok::<_, ParsingError>((es, l)),
{
    let sl = l + seq!['\n'];
    assert(no_cr_before_lf(sl)) by {
        assert forall|i: int| 0 <= i < sl.len() - 1 && #[trigger] sl[i] == '\r' implies sl[i + 1] != '\n' by {
            assert(sl[i] == l[i]);
            assert(l.contains('\r'));
        }
    }
    assert(sl =~= l + seq!['\n'] + Seq::<char>::empty());
    lemma_lines_line_first(l, Seq::<char>::empty());
    assert(strip_cr(l) == l) by {
        assert(l[l.len() - 1] != '\r') by {
            if l[l.len() - 1] == '\r' {
                assert(l.contains('\r'));
            }
        }
    }
    assert(lines(Seq::<char>::empty()) =~= Seq::<Seq<char>>::empty());
    assert(lines(sl)[0] == l);
    lemma_trim_keeps(l, 0);
    assert(!is_blank(l));
    lemma_summary_after_fence(es, l);
}

/// Whether a directory entry with this file name is a change file: its
/// extension (the text after its last `.`, where that `.` is not its first
/// character) is `md`.
pub fn has_md_extension(file_name: &str) -> (r: bool)
    ensures
        r == (file_name@.len() > 3 && file_name@.skip(file_name@.len() - 3) == md_suffix()),
{
    let v = chars_of(file_name);
    let n = v.len();
    if n <= 3 || v[n - 3] != '.' || v[n - 2] != 'm' || v[n - 1] != 'd' {
        proof {
            if n > 3 && v@.skip(n - 3) == md_suffix() {
                assert(v@.skip(n - 3)[0] == v@[n - 3]);
                assert(v@.skip(n - 3)[1] == v@[n - 2]);
                assert(v@.skip(n - 3)[2] == v@[n - 1]);
            }
        }
        return false;
    }
    assert(v@.skip(n - 3) =~= md_suffix());
    true
}

/// A character that a unique id may hold: a lower-case ASCII letter, a digit or `_`.
pub open spec fn is_id_char(c: char) -> bool {
    ('a' <= c <= 'z') || ('0' <= c <= '9') || c == '_'
}

/// A character that a unique id keeps as it is: a lower-case ASCII letter or a digit.
pub open spec fn is_kept_char(c: char) -> bool {
    ('a' <= c <= 'z') || ('0' <= c <= '9')
}

/// A unique id holds only lower-case ASCII letters, digits and `_`, and `_`
/// only where the title had a space.
pub proof fn lemma_sanitize_chars(s: Seq<char>)
    ensures
        forall|i: int| 0 <= i < sanitize(s).len() ==> is_id_char(#[trigger] sanitize(s)[i]),
        !s.contains(' ') ==> forall|i: int| 0 <= i < sanitize(s).len() ==> is_kept_char(#[trigger] sanitize(s)[i]),
    decreases s.len(),
{
    if s.len() > 0 {
        lemma_sanitize_chars(s.drop_last());
        let a = sanitize(s.drop_last());
        let b = id_chars(s.last());
        if !s.contains(' ') {
            assert(!s.drop_last().contains(' ')) by {
                if s.drop_last().contains(' ') {
                    let i = choose|i: int| 0 <= i < s.drop_last().len() && s.drop_last()[i] == ' ';
                    assert(s[i] == ' ');
                }
            }
            assert(s.last() != ' ') by {
                if s.last() == ' ' {
                    assert(s[s.len() - 1] == ' ');
                }
            }
        }
        assert forall|i: int| 0 <= i < sanitize(s).len() implies is_id_char(#[trigger] sanitize(s)[i])
            && (!s.contains(' ') ==> is_kept_char(sanitize(s)[i])) by {
            if i < a.len() {
                assert(sanitize(s)[i] == a[i]);
            } else {
                assert(sanitize(s)[i] == b[i - a.len()]);
                let c = s.last();
                if 'A' <= c <= 'Z' {
                    assert((c as u32) + 32 <= 'z' as u32);
                }
            }
        }
    }
}

/// Text made only of lower-case ASCII letters and digits is its own unique id.
pub proof fn lemma_sanitize_fixed(s: Seq<char>)
    requires
        forall|i: int| 0 <= i < s.len() ==> is_kept_char(#[trigger] s[i]),
    ensures
        sanitize(s) == s,
    decreases s.len(),
{
    if s.len() > 0 {
        lemma_sanitize_fixed(s.drop_last());
        assert(is_kept_char(s[s.len() - 1]));
        assert(s =~= s.drop_last() + id_chars(s.last()));
    }
}

/// Making a unique id of the unique id of a title without spaces changes
/// nothing. (A space becomes `_`, which a second pass drops.)
pub proof fn lemma_sanitize_idempotent(s: Seq<char>)
    requires
        !s.contains(' '),
    ensures
        sanitize(sanitize(s)) == sanitize(s),
{
    lemma_sanitize_chars(s);
    lemma_sanitize_fixed(sanitize(s));
}

/// The file of a change gives its unique id back: the file's name ends in
/// `.md`, has `md` as its extension when the id is not empty, and
/// [`UniqueId::from_file_name`] takes the id from it.
pub proof fn lemma_file_name_round_trip(id: Seq<char>)
    ensures
        ({
            let name = id + md_suffix();
            &&& name.len() >= 3
            &&& name.skip(name.len() - 3) == md_suffix()
            &&& name.take(name.len() - 3) == id
            &&& (name.len() > 3 <==> id.len() > 0)
        }),
{
    let name = id + md_suffix();
    assert(name.skip(name.len() - 3) =~= md_suffix());
    assert(name.take(name.len() - 3) =~= id);
}

/// The unique id of one character: an upper-case ASCII letter becomes its
/// lower-case letter, a lower-case letter or digit stays, a space becomes `_`,
/// and anything else is dropped.
pub proof fn lemma_sanitize_char(c: char)
    ensures
        'A' <= c <= 'Z' ==> sanitize(seq![c]) == seq![((c as u32) + 32) as char],
        ('a' <= c <= 'z' || '0' <= c <= '9') ==> sanitize(seq![c]) == seq![c],
        c == ' ' ==> sanitize(seq![c]) == seq!['_'],
        !('A' <= c <= 'Z' || 'a' <= c <= 'z' || '0' <= c <= '9' || c == ' ') ==> sanitize(seq![c])
            == Seq::<char>::empty(),
{
    assert(seq![c].drop_last() =~= Seq::<char>::empty());
    assert(seq![c].last() == c);
    assert(sanitize(Seq::<char>::empty()) =~= Seq::<char>::empty());
    assert(sanitize(seq![c]) =~= id_chars(c));
}

/// The unique id of a title is made character by character: that of two
/// texts one after the other is their unique ids one after the other.
pub proof fn lemma_sanitize_concat(a: Seq<char>, b: Seq<char>)
    ensures
        sanitize(a + b) == sanitize(a) + sanitize(b),
    decreases b.len(),
{
    if b.len() == 0 {
        assert(a + b =~= a);
        assert(sanitize(b) =~= Seq::<char>::empty());
        assert(sanitize(a) + sanitize(b) =~= sanitize(a));
    } else {
        assert((a + b).drop_last() =~= a + b.drop_last());
        assert((a + b).last() == b.last());
        lemma_sanitize_concat(a, b.drop_last());
        assert(sanitize(a) + sanitize(b) =~= sanitize(a) + sanitize(b.drop_last()) + id_chars(b.last()));
    }
}
} // verus!
