//! The text model: white space, trimming, line splitting and joining, and the
//! order of strings, as `str` and `String` have them, stated over `Seq<char>`
//! and carried out on `Vec<char>`.

use vstd::prelude::*;

verus! {

/// Unicode `White_Space`, which is what `char::is_whitespace` tests.
pub open spec fn is_space(c: char) -> bool {
    let n = c as u32;
    ||| 0x09 <= n <= 0x0D
    ||| n == 0x20
    ||| n == 0x85
    ||| n == 0xA0
    ||| n == 0x1680
    ||| 0x2000 <= n <= 0x200A
    ||| n == 0x2028
    ||| n == 0x2029
    ||| n == 0x202F
    ||| n == 0x205F
    ||| n == 0x3000
}

/// `s` without its leading white space.
pub open spec fn trim_start(s: Seq<char>) -> Seq<char>
    decreases s.len(),
{
    if s.len() > 0 && is_space(s[0]) {
        trim_start(s.drop_first())
    } else {
        s
    }
}

/// `s` without its trailing white space.
pub open spec fn trim_end(s: Seq<char>) -> Seq<char>
    decreases s.len(),
{
    if s.len() > 0 && is_space(s.last()) {
        trim_end(s.drop_last())
    } else {
        s
    }
}

/// `s` without leading and trailing white space (`str::trim`).
pub open spec fn trim(s: Seq<char>) -> Seq<char> {
    trim_end(trim_start(s))
}

/// A line that holds nothing but white space.
pub open spec fn is_blank(s: Seq<char>) -> bool {
    trim(s).len() == 0
}

/// A line without the carriage return that ended it.
pub open spec fn strip_cr(s: Seq<char>) -> Seq<char> {
    if s.len() > 0 && s.last() == '\r' {
        s.drop_last()
    } else {
        s
    }
}

/// The lines of `rest`, where `cur` holds what is already read of the current
/// line: `\n` ends a line (together with a `\r` just before it), and a last
/// line without `\n` counts when it is not empty.
pub open spec fn lines_from(rest: Seq<char>, cur: Seq<char>) -> Seq<Seq<char>>
    decreases rest.len(),
{
    if rest.len() == 0 {
        if cur.len() == 0 {
            seq![]
        } else {
            seq![cur]
        }
    } else if rest[0] == '\n' {
        seq![strip_cr(cur)] + lines_from(rest.drop_first(), seq![])
    } else {
        lines_from(rest.drop_first(), cur.push(rest[0]))
    }
}

/// The lines of `s` (`str::lines`).
pub open spec fn lines(s: Seq<char>) -> Seq<Seq<char>> {
    lines_from(s, seq![])
}

/// The lines joined by `\n` (`join("\n")`).
pub open spec fn join_lines(ls: Seq<Seq<char>>) -> Seq<char>
    decreases ls.len(),
{
    if ls.len() == 0 {
        seq![]
    } else if ls.len() == 1 {
        ls[0]
    } else {
        join_lines(ls.drop_last()) + seq!['\n'] + ls.last()
    }
}

/// The position of the first `c` in `s`, or the length of `s` when there is none.
pub open spec fn first_index_of(s: Seq<char>, c: char) -> int
    decreases s.len(),
{
    if s.len() == 0 {
        0
    } else if s[0] == c {
        0
    } else {
        1 + first_index_of(s.drop_first(), c)
    }
}

/// The lines after the leading blank ones.
pub open spec fn drop_blank_prefix(ls: Seq<Seq<char>>) -> Seq<Seq<char>>
    decreases ls.len(),
{
    if ls.len() > 0 && is_blank(ls[0]) {
        drop_blank_prefix(ls.drop_first())
    } else {
        ls
    }
}

/// `a` comes strictly before `b` in the order of `String`: character by
/// character by code point, and a proper prefix first.
pub open spec fn str_lt(a: Seq<char>, b: Seq<char>) -> bool
    decreases a.len(),
{
    if b.len() == 0 {
        false
    } else if a.len() == 0 {
        true
    } else if a[0] != b[0] {
        a[0] < b[0]
    } else {
        str_lt(a.drop_first(), b.drop_first())
    }
}

/// `a` comes before `b` or equals it.
pub open spec fn str_le(a: Seq<char>, b: Seq<char>) -> bool {
    str_lt(a, b) || a == b
}

/// No string comes before itself.
pub proof fn lemma_str_lt_irreflexive(a: Seq<char>)
    ensures
        !str_lt(a, a),
    decreases a.len(),
{
    if a.len() > 0 {
        lemma_str_lt_irreflexive(a.drop_first());
    }
}

/// The order of strings is transitive.
pub proof fn lemma_str_lt_transitive(a: Seq<char>, b: Seq<char>, c: Seq<char>)
    requires
        str_lt(a, b),
        str_lt(b, c),
    ensures
        str_lt(a, c),
    decreases a.len(),
{
    if a.len() > 0 && b.len() > 0 && c.len() > 0 && a[0] == b[0] && b[0] == c[0] {
        lemma_str_lt_transitive(a.drop_first(), b.drop_first(), c.drop_first());
    }
}

/// Of two different strings, one comes before the other.
pub proof fn lemma_str_lt_total(a: Seq<char>, b: Seq<char>)
    ensures
        a == b || str_lt(a, b) || str_lt(b, a),
    decreases a.len(),
{
    if a.len() > 0 && b.len() > 0 {
        if a[0] == b[0] {
            lemma_str_lt_total(a.drop_first(), b.drop_first());
            if a.drop_first() == b.drop_first() {
                assert(a =~= seq![a[0]] + a.drop_first());
                assert(b =~= seq![b[0]] + b.drop_first());
            }
        }
    } else if a.len() == 0 && b.len() == 0 {
        assert(a =~= b);
    }
}

/// Two strings do not each come before the other.
pub proof fn lemma_str_lt_asymmetric(a: Seq<char>, b: Seq<char>)
    ensures
        !(str_lt(a, b) && str_lt(b, a)),
{
    if str_lt(a, b) && str_lt(b, a) {
        lemma_str_lt_transitive(a, b, a);
        lemma_str_lt_irreflexive(a);
    }
}

/// Whether `c` is a Unicode white-space character.
pub fn char_is_space(c: char) -> (b: bool)
    ensures
        b == is_space(c),
{
    let n = c as u32;
    (0x09 <= n && n <= 0x0D) || n == 0x20 || n == 0x85 || n == 0xA0 || n == 0x1680 || (0x2000
        <= n && n <= 0x200A) || n == 0x2028 || n == 0x2029 || n == 0x202F || n == 0x205F || n
        == 0x3000
}

/// The characters of a string, in order.
pub fn chars_of(s: &str) -> (v: Vec<char>)
    ensures
        v@ == s@,
{
    let mut v: Vec<char> = Vec::new();
    for c in it: s.chars()
        invariant
            v@ == it.seq().take(it.index() as int),
            it.seq() == s@,
    {
        v.push(c);
    }
    v
}

/// `String::push` appends one character.
pub assume_specification[ String::push ](s: &mut String, ch: char)
    ensures
        final(s)@ == old(s)@.push(ch),
;

/// Appends `v[lo..hi]` to `out`.
pub fn push_range(out: &mut String, v: &Vec<char>, lo: usize, hi: usize)
    requires
        lo <= hi <= v@.len(),
    ensures
        final(out)@ == old(out)@ + v@.subrange(lo as int, hi as int),
{
    let mut i = lo;
    while i < hi
        invariant
            lo <= i <= hi <= v@.len(),
            out@ == old(out)@ + v@.subrange(lo as int, i as int),
        decreases hi - i,
    {
        out.push(v[i]);
        assert(v@.subrange(lo as int, i + 1) =~= v@.subrange(lo as int, i as int).push(v@[i as int]));
        i = i + 1;
    }
}

/// The string made of `v[lo..hi]`.
pub fn string_of(v: &Vec<char>, lo: usize, hi: usize) -> (s: String)
    requires
        lo <= hi <= v@.len(),
    ensures
        s@ == v@.subrange(lo as int, hi as int),
{
    let mut s = String::new();
    push_range(&mut s, v, lo, hi);
    assert(s@ =~= v@.subrange(lo as int, hi as int));
    s
}

/// The bounds of `trim(v[lo..hi])` within `v`.
pub fn trim_bounds(v: &Vec<char>, lo: usize, hi: usize) -> (r: (usize, usize))
    requires
        lo <= hi <= v@.len(),
    ensures
        lo <= r.0 <= r.1 <= hi,
        v@.subrange(r.0 as int, r.1 as int) == trim(v@.subrange(lo as int, hi as int)),
{
    let mut a = lo;
    while a < hi && char_is_space(v[a])
        invariant
            lo <= a <= hi <= v@.len(),
            trim_start(v@.subrange(lo as int, hi as int)) == trim_start(
                v@.subrange(a as int, hi as int),
            ),
        decreases hi - a,
    {
        assert(v@.subrange(a as int, hi as int).drop_first() =~= v@.subrange(a + 1, hi as int));
        a = a + 1;
    }
    let mut b = hi;
    while b > a && char_is_space(v[b - 1])
        invariant
            lo <= a <= b <= hi <= v@.len(),
            trim_end(v@.subrange(a as int, hi as int)) == trim_end(v@.subrange(a as int, b as int)),
        decreases b - a,
    {
        assert(v@.subrange(a as int, b as int).drop_last() =~= v@.subrange(a as int, b - 1));
        b = b - 1;
    }
    (a, b)
}

/// Whether `v[lo..hi]` equals `w`.
pub fn range_eq(v: &Vec<char>, lo: usize, hi: usize, w: &Vec<char>) -> (b: bool)
    requires
        lo <= hi <= v@.len(),
    ensures
        b == (v@.subrange(lo as int, hi as int) == w@),
{
    if hi - lo != w.len() {
        return false;
    }
    let mut i: usize = 0;
    while i < w.len()
        invariant
            lo <= hi <= v@.len(),
            hi - lo == w@.len(),
            i <= w@.len(),
            forall|j: int| 0 <= j < i ==> v@[lo + j] == w@[j],
        decreases w@.len() - i,
    {
        if v[lo + i] != w[i] {
            assert(v@.subrange(lo as int, hi as int)[i as int] != w@[i as int]);
            return false;
        }
        i = i + 1;
    }
    assert(v@.subrange(lo as int, hi as int) =~= w@);
    true
}

/// Whether `a` comes strictly before `b` in the order of strings.
pub fn string_lt(a: &str, b: &str) -> (r: bool)
    ensures
        r == str_lt(a@, b@),
{
    let x = chars_of(a);
    let y = chars_of(b);
    let mut i: usize = 0;
    assert(x@.skip(0) =~= x@);
    assert(y@.skip(0) =~= y@);
    while i < x.len() && i < y.len() && x[i] == y[i]
        invariant
            i <= x@.len(),
            i <= y@.len(),
            x@ == a@,
            y@ == b@,
            str_lt(a@, b@) == str_lt(x@.skip(i as int), y@.skip(i as int)),
        decreases x@.len() - i,
    {
        assert(x@.skip(i as int).drop_first() =~= x@.skip(i + 1));
        assert(y@.skip(i as int).drop_first() =~= y@.skip(i + 1));
        i = i + 1;
    }
    if i == y.len() {
        false
    } else if i == x.len() {
        true
    } else {
        x[i] < y[i]
    }
}

/// `lb` holds the bounds, within `v`, of each line of `v`.
pub open spec fn bounds_of_lines(v: Seq<char>, lb: Seq<(usize, usize)>) -> bool {
    &&& lb.len() == lines(v).len()
    &&& forall|k: int|
        #![trigger lb[k]]
        0 <= k < lb.len() ==> {
            &&& lb[k].0 <= lb[k].1 <= v.len()
            &&& v.subrange(lb[k].0 as int, lb[k].1 as int) == lines(v)[k]
        }
}

/// The lines of `v`, each as the bounds of its characters in `v`.
pub fn line_bounds(v: &Vec<char>) -> (r: Vec<(usize, usize)>)
    ensures
        bounds_of_lines(v@, r@),
{
    let mut r: Vec<(usize, usize)> = Vec::new();
    let mut start: usize = 0;
    let mut i: usize = 0;
    let ghost mut done: Seq<Seq<char>> = seq![];
    assert(v@.skip(0) =~= v@);
    assert(v@.subrange(0, 0) =~= Seq::<char>::empty());
    while i < v.len()
        invariant
            start <= i <= v@.len(),
            r@.len() == done.len(),
            forall|k: int|
                #![trigger r@[k]]
                0 <= k < r@.len() ==> {
                    &&& r@[k].0 <= r@[k].1 <= v@.len()
                    &&& v@.subrange(r@[k].0 as int, r@[k].1 as int) == done[k]
                },
            done + lines_from(v@.skip(i as int), v@.subrange(start as int, i as int)) == lines(
                v@,
            ),
        decreases v@.len() - i,
    {
        let ghost rest = v@.skip(i as int);
        assert(rest.drop_first() =~= v@.skip(i + 1));
        if v[i] == '\n' {
            let end = if i > start && v[i - 1] == '\r' {
                i - 1
            } else {
                i
            };
            let ghost cur = v@.subrange(start as int, i as int);
            assert(v@.subrange(start as int, end as int) =~= strip_cr(cur));
            r.push((start, end));
            proof {
                assert forall|k: int| 0 <= k < r@.len() implies {
                    &&& r@[k].0 <= r@[k].1 <= v@.len()
                    &&& v@.subrange(r@[k].0 as int, r@[k].1 as int) == #[trigger] done.push(strip_cr(cur))[k]
                } by {
                    if k < done.len() {
                        assert(done.push(strip_cr(cur))[k] == done[k]);
                    }
                }
                assert(seq![strip_cr(cur)] + lines_from(rest.drop_first(), seq![]) == lines_from(
                    rest,
                    cur,
                ));
                assert(v@.subrange(i + 1, i + 1) =~= Seq::<char>::empty());
                assert(done.push(strip_cr(cur)) + lines_from(v@.skip(i + 1), seq![]) =~= done + (
                seq![strip_cr(cur)] + lines_from(rest.drop_first(), seq![])));
                done = done.push(strip_cr(cur));
            }
            start = i + 1;
        } else {
            assert(v@.subrange(start as int, i + 1) =~= v@.subrange(start as int, i as int).push(
                v@[i as int],
            ));
        }
        i = i + 1;
    }
    assert(v@.skip(i as int) =~= Seq::<char>::empty());
    let ghost cur = v@.subrange(start as int, i as int);
    assert(lines_from(v@.skip(i as int), cur) == (if cur.len() == 0 { seq![] } else { seq![cur] }));
    if start < i {
        r.push((start, i));
        proof {
            assert forall|k: int| 0 <= k < r@.len() implies {
                &&& r@[k].0 <= r@[k].1 <= v@.len()
                &&& v@.subrange(r@[k].0 as int, r@[k].1 as int) == #[trigger] done.push(cur)[k]
            } by {
                if k < done.len() {
                    assert(done.push(cur)[k] == done[k]);
                }
            }
            assert(done + seq![cur] =~= done.push(cur));
            done = done.push(cur);
        }
    } else {
        assert(done + Seq::<Seq<char>>::empty() =~= done);
    }
    assert(done == lines(v@));
    r
}


/// The position of the first `c` in `v[lo..hi]`, counted from `lo`, or
/// `hi - lo` when there is none.
pub fn find_char(v: &Vec<char>, lo: usize, hi: usize, c: char) -> (r: usize)
    requires
        lo <= hi <= v@.len(),
    ensures
        r == first_index_of(v@.subrange(lo as int, hi as int), c),
        r <= hi - lo,
{
    let mut i = lo;
    proof {
        lemma_first_index_of_bounds(v@.subrange(lo as int, hi as int), c);
    }
    while i < hi && v[i] != c
        invariant
            lo <= i <= hi <= v@.len(),
            first_index_of(v@.subrange(lo as int, hi as int), c) == (i - lo) + first_index_of(
                v@.subrange(i as int, hi as int),
                c,
            ),
            0 <= first_index_of(v@.subrange(i as int, hi as int), c) <= hi - i,
        decreases hi - i,
    {
        assert(v@.subrange(i as int, hi as int).drop_first() =~= v@.subrange(i + 1, hi as int));
        proof {
            lemma_first_index_of_bounds(v@.subrange(i + 1, hi as int), c);
        }
        i = i + 1;
    }
    i - lo
}

/// `first_index_of` lies within the string, or just past it.
pub proof fn lemma_first_index_of_bounds(s: Seq<char>, c: char)
    ensures
        0 <= first_index_of(s, c) <= s.len(),
        first_index_of(s, c) < s.len() ==> s[first_index_of(s, c)] == c,
        forall|j: int| 0 <= j < first_index_of(s, c) ==> s[j] != c,
    decreases s.len(),
{
    if s.len() > 0 && s[0] != c {
        lemma_first_index_of_bounds(s.drop_first(), c);
        assert forall|j: int| 0 <= j < first_index_of(s, c) implies s[j] != c by {
            if j > 0 {
                assert(s[j] == s.drop_first()[j - 1]);
            }
        }
    }
}

/// No `\r` stands just before a `\n`.
pub open spec fn no_cr_before_lf(t: Seq<char>) -> bool {
    forall|i: int| 0 <= i < t.len() - 1 && #[trigger] t[i] == '\r' ==> t[i + 1] != '\n'
}

/// Text without a line break adds to the current line.
pub proof fn lemma_lines_from_no_newline(a: Seq<char>, r: Seq<char>, cur: Seq<char>)
    requires
        !a.contains('\n'),
    ensures
        lines_from(a + r, cur) == lines_from(r, cur + a),
    decreases a.len(),
{
    if a.len() == 0 {
        assert(a + r =~= r);
        assert(cur + a =~= cur);
    } else {
        let t = a + r;
        assert(t[0] == a[0]);
        assert(a[0] != '\n') by {
            if a[0] == '\n' {
                assert(a.contains('\n'));
            }
        }
        assert(t.drop_first() =~= a.drop_first() + r);
        assert(!a.drop_first().contains('\n')) by {
            if a.drop_first().contains('\n') {
                let i = choose|i: int| 0 <= i < a.drop_first().len() && a.drop_first()[i] == '\n';
                assert(a[i + 1] == '\n');
            }
        }
        lemma_lines_from_no_newline(a.drop_first(), r, cur.push(a[0]));
        assert(cur.push(a[0]) + a.drop_first() =~= cur + a);
    }
}

/// A line ended by `\n` comes first among the lines.
pub proof fn lemma_lines_line_first(a: Seq<char>, r: Seq<char>)
    requires
        !a.contains('\n'),
    ensures
        lines(a + seq!['\n'] + r) == seq![strip_cr(a)] + lines(r),
{
    assert(a + seq!['\n'] + r =~= a + (seq!['\n'] + r));
    lemma_lines_from_no_newline(a, seq!['\n'] + r, seq![]);
    assert(Seq::<char>::empty() + a =~= a);
    assert((seq!['\n'] + r).drop_first() =~= r);
}

/// Joining a first line to the others puts a `\n` between them.
pub proof fn lemma_join_lines_first(a: Seq<char>, ls: Seq<Seq<char>>)
    requires
        ls.len() > 0,
    ensures
        join_lines(seq![a] + ls) == a + seq!['\n'] + join_lines(ls),
    decreases ls.len(),
{
    let t = seq![a] + ls;
    if ls.len() == 1 {
        assert(t.drop_last() =~= seq![a]);
        assert(t.last() == ls[0]);
        assert(join_lines(seq![a]) == a);
        assert(join_lines(ls) == ls[0]);
    } else {
        assert(t.drop_last() =~= seq![a] + ls.drop_last());
        lemma_join_lines_first(a, ls.drop_last());
        assert(join_lines(t) =~= a + seq!['\n'] + join_lines(ls));
    }
}

/// Splitting text that ends in `\n` into lines and joining them again gives
/// the text back without its last `\n`, when no `\r` stands before a `\n`.
pub proof fn lemma_join_lines_from(rest: Seq<char>, cur: Seq<char>)
    requires
        rest.len() > 0,
        rest.last() == '\n',
        !cur.contains('\n'),
        no_cr_before_lf(cur + rest),
    ensures
        lines_from(rest, cur).len() > 0,
        join_lines(lines_from(rest, cur)) == cur + rest.drop_last(),
    decreases rest.len(),
{
    let t = cur + rest;
    let tail = rest.drop_first();
    if rest[0] == '\n' {
        assert(strip_cr(cur) == cur) by {
            if cur.len() > 0 && cur.last() == '\r' {
                assert(t[cur.len() - 1] == '\r');
                assert(t[cur.len() as int] == '\n');
            }
        }
        if tail.len() == 0 {
            assert(lines_from(tail, seq![]) =~= Seq::<Seq<char>>::empty());
            assert(seq![cur] + Seq::<Seq<char>>::empty() =~= seq![cur]);
            assert(rest.drop_last() =~= Seq::<char>::empty());
            assert(cur + rest.drop_last() =~= cur);
        } else {
            assert(no_cr_before_lf(Seq::<char>::empty() + tail)) by {
                assert forall|i: int| 0 <= i < tail.len() - 1 && #[trigger] (Seq::<char>::empty() + tail)[i] == '\r'
                    implies (Seq::<char>::empty() + tail)[i + 1] != '\n' by {
                    assert(t[cur.len() + 1 + i] == tail[i]);
                    assert(t[cur.len() + 1 + i + 1] == tail[i + 1]);
                }
            }
            assert(tail.last() == '\n');
            lemma_join_lines_from(tail, seq![]);
            assert(Seq::<char>::empty() + tail.drop_last() =~= tail.drop_last());
            lemma_join_lines_first(cur, lines_from(tail, seq![]));
            assert(cur + seq!['\n'] + tail.drop_last() =~= cur + rest.drop_last());
        }
    } else {
        assert(tail.len() > 0);
        assert(!cur.push(rest[0]).contains('\n')) by {
            if cur.push(rest[0]).contains('\n') {
                let i = choose|i: int| 0 <= i < cur.push(rest[0]).len() && cur.push(rest[0])[i] == '\n';
                if i < cur.len() {
                    assert(cur[i] == '\n');
                }
            }
        }
        assert(cur.push(rest[0]) + tail =~= t);
        lemma_join_lines_from(tail, cur.push(rest[0]));
        assert(cur.push(rest[0]) + tail.drop_last() =~= cur + rest.drop_last());
    }
}

/// Trimming keeps every character that is not white space.
pub proof fn lemma_trim_keeps(s: Seq<char>, i: int)
    requires
        0 <= i < s.len(),
        !is_space(s[i]),
    ensures
        trim(s).contains(s[i]),
{
    lemma_trim_start_keeps(s, i);
    let t = trim_start(s);
    let j = choose|j: int| 0 <= j < t.len() && t[j] == s[i];
    lemma_trim_end_keeps(t, j);
}

/// Trimming the start keeps every character that is not white space.
pub proof fn lemma_trim_start_keeps(s: Seq<char>, i: int)
    requires
        0 <= i < s.len(),
        !is_space(s[i]),
    ensures
        trim_start(s).contains(s[i]),
    decreases s.len(),
{
    if is_space(s[0]) {
        assert(s.drop_first()[i - 1] == s[i]);
        lemma_trim_start_keeps(s.drop_first(), i - 1);
    } else {
        assert(trim_start(s)[i] == s[i]);
    }
}

/// Trimming the end keeps every character that is not white space.
pub proof fn lemma_trim_end_keeps(s: Seq<char>, i: int)
    requires
        0 <= i < s.len(),
        !is_space(s[i]),
    ensures
        trim_end(s).contains(s[i]),
    decreases s.len(),
{
    if is_space(s.last()) {
        assert(s.drop_last()[i] == s[i]);
        lemma_trim_end_keeps(s.drop_last(), i);
    } else {
        assert(trim_end(s)[i] == s[i]);
    }
}

/// The first `c` of `a + b`, where `a` holds none, is the first `c` of `b`.
pub proof fn lemma_first_index_of_concat(a: Seq<char>, b: Seq<char>, c: char)
    requires
        !a.contains(c),
    ensures
        first_index_of(a + b, c) == a.len() + first_index_of(b, c),
    decreases a.len(),
{
    if a.len() == 0 {
        assert(a + b =~= b);
    } else {
        assert((a + b)[0] == a[0]);
        assert(a[0] != c) by {
            if a[0] == c {
                assert(a.contains(c));
            }
        }
        assert((a + b).drop_first() =~= a.drop_first() + b);
        assert(!a.drop_first().contains(c)) by {
            if a.drop_first().contains(c) {
                let i = choose|i: int| 0 <= i < a.drop_first().len() && a.drop_first()[i] == c;
                assert(a[i + 1] == c);
            }
        }
        lemma_first_index_of_concat(a.drop_first(), b, c);
    }
}

/// A proper prefix comes first in the order of strings: the empty string
/// before every other, and `a` before `a` followed by anything.
pub proof fn lemma_str_lt_prefix(a: Seq<char>, t: Seq<char>)
    requires
        t.len() > 0,
    ensures
        str_lt(a, a + t),
        !str_lt(a + t, a),
    decreases a.len(),
{
    if a.len() > 0 {
        assert((a + t)[0] == a[0]);
        assert((a + t).drop_first() =~= a.drop_first() + t);
        lemma_str_lt_prefix(a.drop_first(), t);
    }
}

/// After a common start, the first character that differs decides the order
/// of strings, by code point.
pub proof fn lemma_str_lt_first_difference(p: Seq<char>, x: char, y: char, s1: Seq<char>, s2: Seq<char>)
    requires
        x != y,
    ensures
        str_lt(p + seq![x] + s1, p + seq![y] + s2) == (x < y),
    decreases p.len(),
{
    let a = p + seq![x] + s1;
    let b = p + seq![y] + s2;
    if p.len() == 0 {
        assert(a[0] == x && b[0] == y);
    } else {
        assert(a[0] == p[0] && b[0] == p[0]);
        assert(a.drop_first() =~= p.drop_first() + seq![x] + s1);
        assert(b.drop_first() =~= p.drop_first() + seq![y] + s2);
        lemma_str_lt_first_difference(p.drop_first(), x, y, s1, s2);
    }
}

/// A line ended by `\r\n` is the text before the `\r`: the carriage return
/// is not part of the line.
pub proof fn lemma_lines_crlf(a: Seq<char>, r: Seq<char>)
    requires
        !a.contains('\n'),
    ensures
        lines(a + seq!['\r', '\n'] + r) == seq![a] + lines(r),
{
    let a2 = a + seq!['\r'];
    assert(!a2.contains('\n')) by {
        if a2.contains('\n') {
            let i = choose|i: int| 0 <= i < a2.len() && a2[i] == '\n';
            assert(i < a.len());
            assert(a[i] == '\n');
        }
    }
    assert(a + seq!['\r', '\n'] + r =~= a2 + seq!['\n'] + r);
    lemma_lines_line_first(a2, r);
    assert(a2.drop_last() =~= a);
}

/// A line ended by `\n` alone is the text before it, when it does not end in `\r`.
pub proof fn lemma_lines_lf(a: Seq<char>, r: Seq<char>)
    requires
        !a.contains('\n'),
        a.len() == 0 || a[a.len() - 1] != '\r',
    ensures
        lines(a + seq!['\n'] + r) == seq![a] + lines(r),
{
    lemma_lines_line_first(a, r);
}

/// The last line counts when it is not ended by a line break, carriage return
/// and all.
pub proof fn lemma_lines_last(a: Seq<char>)
    requires
        !a.contains('\n'),
        a.len() > 0,
    ensures
        lines(a) == seq![a],
{
    assert(a + Seq::<char>::empty() =~= a);
    lemma_lines_from_no_newline(a, Seq::<char>::empty(), seq![]);
    assert(Seq::<char>::empty() + a =~= a);
}
} // verus!
