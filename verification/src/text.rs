//! Character-level text handling: whitespace trimming, line splitting,
//! searching and joining, stated over `Seq<char>` and carried out on `Vec<char>`.
use vstd::prelude::*;
use vstd::string::StringExecFns;

verus! {

broadcast use vstd::string::group_string_axioms;

/// The characters of `s`, in order.
pub fn chars_of(s: &str) -> (v: Vec<char>)
    ensures
        v@ == s@,
{
    let mut v: Vec<char> = Vec::new();
    for c in it: s.chars()
        invariant
            v@ == it.history(),
    {
        v.push(c);
    }
    v
}

// ---------------------------------------------------------------------------
// Whitespace
// ---------------------------------------------------------------------------

/// The characters with the Unicode `White_Space` property, which is what
/// `char::is_whitespace` (and so `str::trim`) goes by.
pub open spec fn is_space(c: char) -> bool {
    let u = c as u32;
    ||| 0x9 <= u <= 0xd
    ||| u == 0x20
    ||| u == 0x85
    ||| u == 0xa0
    ||| u == 0x1680
    ||| 0x2000 <= u <= 0x200a
    ||| u == 0x2028
    ||| u == 0x2029
    ||| u == 0x202f
    ||| u == 0x205f
    ||| u == 0x3000
}

/// Whether `c` is a whitespace character.
pub fn is_space_char(c: char) -> (b: bool)
    ensures
        b == is_space(c),
{
    let u = c as u32;
    (0x9 <= u && u <= 0xd) || u == 0x20 || u == 0x85 || u == 0xa0 || u == 0x1680 || (0x2000 <= u
        && u <= 0x200a) || u == 0x2028 || u == 0x2029 || u == 0x202f || u == 0x205f || u == 0x3000
}

/// Number of whitespace characters at the start of `s`.
pub open spec fn leading_spaces(s: Seq<char>) -> nat
    decreases s.len(),
{
    if s.len() > 0 && is_space(s[0]) {
        1 + leading_spaces(s.drop_first())
    } else {
        0
    }
}

/// Number of whitespace characters at the end of `s`.
pub open spec fn trailing_spaces(s: Seq<char>) -> nat
    decreases s.len(),
{
    if s.len() > 0 && is_space(s.last()) {
        1 + trailing_spaces(s.drop_last())
    } else {
        0
    }
}

/// `s` without its leading whitespace (`str::trim_start`).
pub open spec fn trim_start(s: Seq<char>) -> Seq<char> {
    s.skip(leading_spaces(s) as int)
}

/// `s` without its trailing whitespace (`str::trim_end`).
pub open spec fn trim_end(s: Seq<char>) -> Seq<char> {
    s.take(s.len() - trailing_spaces(s))
}

/// `s` without leading and trailing whitespace (`str::trim`).
pub open spec fn trim(s: Seq<char>) -> Seq<char> {
    trim_end(trim_start(s))
}

/// The leading whitespace is a run of whitespace characters at the start,
/// followed by a non-whitespace character or the end.
pub proof fn lemma_leading_spaces_bound(s: Seq<char>)
    ensures
        leading_spaces(s) <= s.len(),
        forall|k: int| 0 <= k < leading_spaces(s) ==> is_space(#[trigger] s[k]),
        leading_spaces(s) < s.len() ==> !is_space(s[leading_spaces(s) as int]),
    decreases s.len(),
{
    if s.len() > 0 && is_space(s[0]) {
        lemma_leading_spaces_bound(s.drop_first());
        assert forall|k: int| 0 <= k < leading_spaces(s) implies is_space(#[trigger] s[k]) by {
            if k > 0 {
                assert(s[k] == s.drop_first()[k - 1]);
            }
        }
    }
}

/// The trailing whitespace is a run of whitespace characters at the end,
/// preceded by a non-whitespace character or the start.
pub proof fn lemma_trailing_spaces_bound(s: Seq<char>)
    ensures
        trailing_spaces(s) <= s.len(),
        forall|k: int|
            s.len() - trailing_spaces(s) <= k < s.len() ==> is_space(#[trigger] s[k]),
        trailing_spaces(s) < s.len() ==> !is_space(s[s.len() - trailing_spaces(s) - 1]),
    decreases s.len(),
{
    if s.len() > 0 && is_space(s.last()) {
        lemma_trailing_spaces_bound(s.drop_last());
        assert forall|k: int|
            s.len() - trailing_spaces(s) <= k < s.len() implies is_space(#[trigger] s[k]) by {
            if k < s.len() - 1 {
                assert(s[k] == s.drop_last()[k]);
            }
        }
    }
}

/// The characters `v[lo..hi]`.
pub fn slice_chars(v: &Vec<char>, lo: usize, hi: usize) -> (r: Vec<char>)
    requires
        lo <= hi <= v.len(),
    ensures
        r@ == v@.subrange(lo as int, hi as int),
{
    let mut r: Vec<char> = Vec::new();
    let mut i = lo;
    while i < hi
        invariant
            lo <= i <= hi <= v.len(),
            r@ == v@.subrange(lo as int, i as int),
        decreases hi - i,
    {
        r.push(v[i]);
        proof {
            assert(r@ =~= v@.subrange(lo as int, i + 1));
        }
        i += 1;
    }
    r
}

/// Index of the first character of `v` that is not whitespace (`v.len()` if none).
fn leading_spaces_end(v: &Vec<char>) -> (i: usize)
    ensures
        i == leading_spaces(v@),
{
    let mut i: usize = 0;
    proof {
        assert(v@.skip(0) =~= v@);
    }
    while i < v.len() && is_space_char(v[i])
        invariant
            i <= v.len(),
            leading_spaces(v@) == i + leading_spaces(v@.skip(i as int)),
        decreases v.len() - i,
    {
        proof {
            assert(v@.skip(i as int).drop_first() =~= v@.skip(i + 1));
        }
        i += 1;
    }
    i
}

/// Length of `v` once its trailing whitespace is removed.
fn trailing_spaces_start(v: &Vec<char>) -> (j: usize)
    ensures
        j == v.len() - trailing_spaces(v@),
{
    let mut j: usize = v.len();
    proof {
        assert(v@.take(v.len() as int) =~= v@);
    }
    while j > 0 && is_space_char(v[j - 1])
        invariant
            j <= v.len(),
            trailing_spaces(v@) == (v.len() - j) + trailing_spaces(v@.take(j as int)),
        decreases j,
    {
        proof {
            assert(v@.take(j as int).drop_last() =~= v@.take(j - 1));
        }
        j -= 1;
    }
    j
}

/// `v` without leading whitespace.
pub fn trim_start_chars(v: &Vec<char>) -> (r: Vec<char>)
    ensures
        r@ == trim_start(v@),
{
    let i = leading_spaces_end(v);
    proof {
        lemma_leading_spaces_bound(v@);
    }
    slice_chars(v, i, v.len())
}

/// `v` without trailing whitespace.
pub fn trim_end_chars(v: &Vec<char>) -> (r: Vec<char>)
    ensures
        r@ == trim_end(v@),
{
    let j = trailing_spaces_start(v);
    proof {
        lemma_trailing_spaces_bound(v@);
    }
    slice_chars(v, 0, j)
}

/// `v` without leading or trailing whitespace.
pub fn trim_chars(v: &Vec<char>) -> (r: Vec<char>)
    ensures
        r@ == trim(v@),
{
    let s = trim_start_chars(v);
    trim_end_chars(&s)
}

// ---------------------------------------------------------------------------
// Lines
// ---------------------------------------------------------------------------

/// Number of characters before the first `'\n'` of `s` (`s.len()` if none).
pub open spec fn line_end(s: Seq<char>) -> nat
    decreases s.len(),
{
    if s.len() == 0 || s[0] == '\n' {
        0
    } else {
        1 + line_end(s.drop_first())
    }
}

/// `s` without one final `'\r'`.
pub open spec fn drop_cr(s: Seq<char>) -> Seq<char> {
    if s.len() > 0 && s.last() == '\r' {
        s.drop_last()
    } else {
        s
    }
}

/// The lines of `s` as `str::lines` yields them: `s` is cut at each `'\n'`,
/// a `'\r'` right before a `'\n'` is dropped, and a final line ending yields
/// no empty line after it.
pub open spec fn lines(s: Seq<char>) -> Seq<Seq<char>>
    decreases s.len(),
{
    if s.len() == 0 {
        seq![]
    } else {
        let e = line_end(s);
        if e >= s.len() {
            seq![s]
        } else {
            seq![drop_cr(s.take(e as int))] + lines(s.skip((e + 1) as int))
        }
    }
}

/// The first line ends at the first `'\n'`, or at the end of the text.
pub proof fn lemma_line_end(s: Seq<char>)
    ensures
        line_end(s) <= s.len(),
        forall|k: int| 0 <= k < line_end(s) ==> #[trigger] s[k] != '\n',
        line_end(s) < s.len() ==> s[line_end(s) as int] == '\n',
    decreases s.len(),
{
    if !(s.len() == 0 || s[0] == '\n') {
        lemma_line_end(s.drop_first());
        assert forall|k: int| 0 <= k < line_end(s) implies #[trigger] s[k] != '\n' by {
            if k > 0 {
                assert(s[k] == s.drop_first()[k - 1]);
            }
        }
    }
}

/// A position `i` with no `'\n'` before it, which is the end of `s` or a `'\n'`,
/// is the end of the first line.
pub proof fn lemma_line_end_at(s: Seq<char>, i: int)
    requires
        0 <= i <= s.len(),
        forall|k: int| 0 <= k < i ==> #[trigger] s[k] != '\n',
        i < s.len() ==> s[i] == '\n',
    ensures
        line_end(s) == i,
{
    lemma_line_end(s);
    if line_end(s) < i {
        assert(s[line_end(s) as int] != '\n');
    }
    if i < line_end(s) {
        assert(s[i] != '\n');
    }
}

/// The character sequences held by a list of character vectors.
pub open spec fn views(r: Seq<Vec<char>>) -> Seq<Seq<char>> {
    r.map_values(|l: Vec<char>| l@)
}

/// The lines of `v`, as `str::lines` yields them.
pub fn split_lines(v: &Vec<char>) -> (r: Vec<Vec<char>>)
    ensures
        views(r@) == lines(v@),
{
    let mut r: Vec<Vec<char>> = Vec::new();
    let mut pos: usize = 0;
    proof {
        assert(v@.skip(0) =~= v@);
        assert(views(r@) + lines(v@.skip(0)) =~= lines(v@));
    }
    while pos < v.len()
        invariant
            pos <= v.len(),
            views(r@) + lines(v@.skip(pos as int)) == lines(v@),
        decreases v.len() - pos,
    {
        let mut e = pos;
        while e < v.len() && v[e] != '\n'
            invariant
                pos <= e <= v.len(),
                forall|k: int| pos <= k < e ==> #[trigger] v@[k] != '\n',
            decreases v.len() - e,
        {
            e += 1;
        }
        let ghost rest = v@.skip(pos as int);
        proof {
            assert forall|k: int| 0 <= k < e - pos implies #[trigger] rest[k] != '\n' by {
                assert(rest[k] == v@[pos + k]);
            }
            lemma_line_end_at(rest, e - pos);
        }
        let ghost before = views(r@);
        if e == v.len() {
            let line = slice_chars(v, pos, e);
            r.push(line);
            proof {
                assert(rest =~= v@.subrange(pos as int, e as int));
                assert(views(r@) =~= before.push(rest));
                assert(v@.skip(e as int) =~= Seq::<char>::empty());
                assert(lines(v@.skip(e as int)) =~= Seq::<Seq<char>>::empty());
                assert(views(r@) + lines(v@.skip(e as int)) =~= before + lines(rest));
            }
            pos = e;
        } else {
            let mut end = e;
            if end > pos && v[end - 1] == '\r' {
                end = end - 1;
            }
            let line = slice_chars(v, pos, end);
            r.push(line);
            proof {
                assert(rest.take(e - pos) =~= v@.subrange(pos as int, e as int));
                assert(drop_cr(rest.take(e - pos)) =~= v@.subrange(pos as int, end as int));
                assert(rest.skip(e - pos + 1) =~= v@.skip(e + 1));
                assert(views(r@) =~= before.push(v@.subrange(pos as int, end as int)));
                assert(views(r@) + lines(v@.skip(e + 1)) =~= before + lines(rest));
            }
            pos = e + 1;
        }
    }
    proof {
        assert(v@.skip(pos as int) =~= Seq::<char>::empty());
        assert(views(r@) + lines(v@.skip(pos as int)) =~= views(r@));
    }
    r
}

/// Text that ends with a line ending splits into lines independently of what
/// follows it.
pub proof fn lemma_lines_append(a: Seq<char>, b: Seq<char>)
    requires
        a.len() == 0 || a.last() == '\n',
    ensures
        lines(a + b) == lines(a) + lines(b),
    decreases a.len(),
{
    if a.len() == 0 {
        assert(a + b =~= b);
        assert(lines(a) =~= Seq::<Seq<char>>::empty());
        assert(lines(a) + lines(b) =~= lines(b));
    } else {
        lemma_line_end(a);
        let e = line_end(a);
        if e == a.len() {
            assert(a[a.len() - 1] != '\n');
        }
        assert(e < a.len());
        let ab = a + b;
        assert forall|k: int| 0 <= k < e implies #[trigger] ab[k] != '\n' by {
            assert(ab[k] == a[k]);
        }
        assert(ab[e as int] == a[e as int]);
        lemma_line_end_at(ab, e as int);
        assert(ab.take(e as int) =~= a.take(e as int));
        let rest = a.skip((e + 1) as int);
        assert(ab.skip((e + 1) as int) =~= rest + b);
        if rest.len() > 0 {
            assert(rest.last() == a.last());
        }
        lemma_lines_append(rest, b);
        assert(lines(ab) == seq![drop_cr(a.take(e as int))] + lines(rest + b));
        assert(lines(a) == seq![drop_cr(a.take(e as int))] + lines(rest));
        assert(lines(ab) =~= lines(a) + lines(b));
    }
}

/// A line followed by a line ending is one line, unless it ends with `'\r'`.
pub proof fn lemma_lines_single(l: Seq<char>)
    requires
        forall|k: int| 0 <= k < l.len() ==> #[trigger] l[k] != '\n',
        l.len() == 0 || l.last() != '\r',
    ensures
        lines(l.push('\n')) == seq![l],
{
    let s = l.push('\n');
    assert forall|k: int| 0 <= k < l.len() implies #[trigger] s[k] != '\n' by {
        assert(s[k] == l[k]);
    }
    lemma_line_end_at(s, l.len() as int);
    assert(s.take(l.len() as int) =~= l);
    assert(s.skip((l.len() + 1) as int) =~= Seq::<char>::empty());
    assert(lines(s.skip((l.len() + 1) as int)) =~= Seq::<Seq<char>>::empty());
    assert(lines(s) =~= seq![l]);
}

/// Text without whitespace at either end is its own trim.
pub proof fn lemma_trim_unchanged(s: Seq<char>)
    requires
        s.len() > 0,
        !is_space(s[0]),
        !is_space(s.last()),
    ensures
        trim(s) == s,
{
    assert(leading_spaces(s) == 0);
    assert(s.skip(0) =~= s);
    assert(trailing_spaces(s) == 0);
    assert(s.take(s.len() as int) =~= s);
}

/// Text that starts with a non-space character has no leading whitespace.
pub proof fn lemma_trim_start_unchanged(s: Seq<char>)
    requires
        s.len() > 0,
        !is_space(s[0]),
    ensures
        trim_start(s) == s,
{
    assert(leading_spaces(s) == 0);
    assert(s.skip(0) =~= s);
}

/// Text followed by one space, trimmed at the end, is the text again when it
/// does not end with whitespace.
pub proof fn lemma_trim_end_padded(n: Seq<char>)
    requires
        n.len() > 0,
        !is_space(n.last()),
    ensures
        trim_end(n.push(' ')) == n,
{
    let s = n.push(' ');
    assert(s.drop_last() =~= n);
    assert(is_space(' '));
    assert(trailing_spaces(n) == 0);
    assert(trailing_spaces(s) == 1);
    assert(s.take(s.len() - 1) =~= n);
}

/// Trimming text that starts with a non-space character keeps that character
/// first.
pub proof fn lemma_trim_keeps_first(s: Seq<char>)
    requires
        s.len() > 0,
        !is_space(s[0]),
    ensures
        trim(s).len() > 0,
        trim(s)[0] == s[0],
{
    assert(leading_spaces(s) == 0);
    assert(s.skip(0) =~= s);
    lemma_trailing_spaces_bound(s);
    if trailing_spaces(s) == s.len() {
        assert(is_space(s[0]));
    }
}

/// The pieces of `x` between its `'\n'` characters: one more piece than
/// there are line breaks, empty pieces included.
pub open spec fn pieces(x: Seq<char>) -> Seq<Seq<char>>
    decreases x.len(),
{
    let i = last_index(x, '\n');
    if 0 <= i && i < x.len() {
        pieces(x.take(i)).push(x.skip(i + 1))
    } else {
        seq![x]
    }
}

/// Whether `x` holds no `c`.
pub open spec fn lacks(x: Seq<char>, c: char) -> bool {
    forall|k: int| 0 <= k < x.len() ==> #[trigger] x[k] != c
}

/// A text with no `'\n'` is one piece.
pub proof fn lemma_pieces_single(x: Seq<char>)
    requires
        lacks(x, '\n'),
    ensures
        pieces(x) == seq![x],
{
    lemma_last_index(x, '\n');
    if last_index(x, '\n') >= 0 {
        assert(x[last_index(x, '\n')] == '\n');
    }
}

/// A line break followed by text without line breaks adds one piece.
pub proof fn lemma_pieces_push(a: Seq<char>, l: Seq<char>)
    requires
        lacks(l, '\n'),
    ensures
        pieces(a + seq!['\n'] + l) == pieces(a).push(l),
{
    let x = a + seq!['\n'] + l;
    assert(x[a.len() as int] == '\n');
    assert forall|k: int| a.len() < k < x.len() implies #[trigger] x[k] != '\n' by {
        assert(x[k] == l[k - a.len() - 1]);
    }
    lemma_last_index_at(x, '\n', a.len() as int);
    assert(x.take(a.len() as int) =~= a);
    assert(x.skip((a.len() + 1) as int) =~= l);
}

/// There is always at least one piece.
pub proof fn lemma_pieces_len(x: Seq<char>)
    ensures
        pieces(x).len() >= 1,
{
}

/// Joining the pieces with `'\n'` gives the text back.
pub proof fn lemma_join_pieces(x: Seq<char>)
    ensures
        join_lines(pieces(x)) == x,
    decreases x.len(),
{
    lemma_last_index(x, '\n');
    let i = last_index(x, '\n');
    if 0 <= i && i < x.len() {
        let y = x.take(i);
        lemma_join_pieces(y);
        lemma_pieces_len(y);
        let p = pieces(y).push(x.skip(i + 1));
        assert(p.drop_last() =~= pieces(y));
        assert(join_lines(p) == join_lines(pieces(y)) + seq!['\n'] + x.skip(i + 1));
        assert(y + seq!['\n'] + x.skip(i + 1) =~= x);
    }
}

/// The pieces of lines joined with `'\n'` are those lines, when none holds a
/// line break.
pub proof fn lemma_pieces_join(ls: Seq<Seq<char>>)
    requires
        ls.len() > 0,
        forall|k: int| 0 <= k < ls.len() ==> lacks(#[trigger] ls[k], '\n'),
    ensures
        pieces(join_lines(ls)) == ls,
    decreases ls.len(),
{
    if ls.len() == 1 {
        lemma_pieces_single(ls[0]);
        assert(seq![ls[0]] =~= ls);
    } else {
        let d = ls.drop_last();
        assert forall|k: int| 0 <= k < d.len() implies lacks(#[trigger] d[k], '\n') by {
            assert(d[k] == ls[k]);
        }
        lemma_pieces_join(d);
        assert(lacks(ls[ls.len() - 1], '\n'));
        lemma_pieces_push(join_lines(d), ls.last());
        assert(d.push(ls.last()) =~= ls);
    }
}

/// Text after a first part that has a non-space character does not change
/// the leading whitespace.
pub proof fn lemma_leading_spaces_append(a: Seq<char>, b: Seq<char>)
    requires
        leading_spaces(a) < a.len(),
    ensures
        leading_spaces(a + b) == leading_spaces(a),
    decreases a.len(),
{
    assert((a + b)[0] == a[0]);
    if is_space(a[0]) {
        assert((a + b).drop_first() =~= a.drop_first() + b);
        lemma_leading_spaces_append(a.drop_first(), b);
    }
}

/// A final `'\r'` makes no difference once a line is trimmed.
pub proof fn lemma_trim_drop_cr(l: Seq<char>)
    ensures
        trim(drop_cr(l)) == trim(l),
{
    if l.len() > 0 && l.last() == '\r' {
        let d = l.drop_last();
        assert(is_space('\r'));
        lemma_leading_spaces_bound(l);
        lemma_leading_spaces_bound(d);
        let n = leading_spaces(l);
        if n == l.len() {
            if leading_spaces(d) < d.len() {
                assert(d[leading_spaces(d) as int] == l[leading_spaces(d) as int]);
            }
            assert(trim_start(l) =~= Seq::<char>::empty());
            assert(trim_start(d) =~= Seq::<char>::empty());
        } else {
            assert(n < l.len() - 1);
            assert(!is_space(d[n as int]));
            assert(leading_spaces(d) < d.len()) by {
                if leading_spaces(d) == d.len() {
                    assert(is_space(d[n as int]));
                }
            }
            assert(l =~= d + seq!['\r']);
            lemma_leading_spaces_append(d, seq!['\r']);
            let u = trim_start(l);
            assert(trim_start(d) =~= u.drop_last());
            assert(u.last() == '\r');
            assert(trailing_spaces(u) == 1 + trailing_spaces(u.drop_last()));
            lemma_trailing_spaces_bound(u.drop_last());
            assert(trim_end(u) =~= trim_end(u.drop_last()));
        }
    }
}

/// A line ending after text that is empty or ends with a line ending adds an
/// empty line.
pub proof fn lemma_lines_push_blank(x: Seq<char>)
    requires
        x.len() == 0 || x.last() == '\n',
    ensures
        lines(x.push('\n')) == lines(x).push(Seq::<char>::empty()),
{
    let e = Seq::<char>::empty();
    let nl = seq!['\n'];
    assert(x.push('\n') =~= x + nl);
    lemma_lines_append(x, nl);
    lemma_lines_single(e);
    assert(e.push('\n') =~= nl);
    assert(lines(x) + seq![e] =~= lines(x).push(e));
}

/// A line ending after text that ends otherwise closes its last line, which
/// loses a final `'\r'`.
pub proof fn lemma_lines_push_close(x: Seq<char>)
    requires
        x.len() > 0,
        x.last() != '\n',
    ensures
        lines(x).len() > 0,
        lines(x.push('\n')) == lines(x).drop_last().push(drop_cr(lines(x).last())),
    decreases x.len(),
{
    lemma_line_end(x);
    let e = line_end(x);
    let y = x.push('\n');
    assert forall|k: int| 0 <= k < e implies #[trigger] y[k] != '\n' by {
        assert(y[k] == x[k]);
    }
    if e >= x.len() {
        lemma_line_end_at(y, x.len() as int);
        assert(y.take(x.len() as int) =~= x);
        let z = y.skip((x.len() + 1) as int);
        assert(z =~= Seq::<char>::empty());
        assert(lines(z) =~= Seq::<Seq<char>>::empty());
        assert(lines(y) == seq![drop_cr(y.take(x.len() as int))] + lines(z));
        assert(lines(y) =~= seq![drop_cr(x)]);
    } else {
        assert(e < x.len() - 1);
        let rest = x.skip((e + 1) as int);
        assert(rest.last() == x.last());
        lemma_lines_push_close(rest);
        assert(y[e as int] == '\n');
        lemma_line_end_at(y, e as int);
        assert(y.take(e as int) =~= x.take(e as int));
        assert(y.skip((e + 1) as int) =~= rest.push('\n'));
        let f = drop_cr(x.take(e as int));
        assert(lines(x) == seq![f] + lines(rest));
        assert(lines(y) == seq![f] + lines(rest.push('\n')));
        assert(lines(y) =~= lines(x).drop_last().push(drop_cr(lines(x).last())));
    }
}

/// Trimming the end first leaves a beginning of what trimming the start
/// leaves.
pub proof fn lemma_trim_start_end(l: Seq<char>)
    ensures
        trim_start(trim_end(l)).len() <= trim_start(l).len(),
        trim_start(trim_end(l)) == trim_start(l).take(trim_start(trim_end(l)).len() as int),
{
    lemma_leading_spaces_bound(l);
    lemma_trailing_spaces_bound(l);
    let n = leading_spaces(l);
    let m = l.len() - trailing_spaces(l);
    let te = l.take(m);
    lemma_leading_spaces_bound(te);
    if n == l.len() {
        if leading_spaces(te) < te.len() {
            assert(te[leading_spaces(te) as int] == l[leading_spaces(te) as int]);
        }
        assert(trim_start(te) =~= Seq::<char>::empty());
    } else {
        assert(n < m) by {
            if n >= m {
                assert(is_space(l[n as int]));
            }
        }
        assert(leading_spaces(te) < te.len()) by {
            if leading_spaces(te) == te.len() {
                assert(te[n as int] == l[n as int]);
            }
        }
        assert(l =~= te + l.skip(m));
        lemma_leading_spaces_append(te, l.skip(m));
        assert(trim_start(te) =~= trim_start(l).take(m - n));
    }
}

/// Whether `l` ends with `'\r'`.
pub open spec fn ends_with_cr(l: Seq<char>) -> bool {
    l.len() > 0 && l.last() == '\r'
}

/// A text followed by a line ending splits into its pieces as lines, when no
/// piece ends with `'\r'`.
pub proof fn lemma_pieces_lines(x: Seq<char>)
    requires
        forall|k: int| 0 <= k < pieces(x).len() ==> !ends_with_cr(#[trigger] pieces(x)[k]),
    ensures
        lines(x.push('\n')) == pieces(x),
    decreases x.len(),
{
    lemma_last_index(x, '\n');
    let i = last_index(x, '\n');
    if 0 <= i && i < x.len() {
        let y = x.take(i);
        let l = x.skip(i + 1);
        let py = pieces(y);
        assert(pieces(x) == py.push(l));
        assert forall|k: int| 0 <= k < py.len() implies !ends_with_cr(#[trigger] py[k]) by {
            assert(pieces(x)[k] == py[k]);
        }
        lemma_pieces_lines(y);
        assert(pieces(x)[py.len() as int] == l);
        assert forall|k: int| 0 <= k < l.len() implies #[trigger] l[k] != '\n' by {
            assert(l[k] == x[k + i + 1]);
        }
        lemma_lines_single(l);
        assert(x.push('\n') =~= y.push('\n') + l.push('\n'));
        lemma_lines_append(y.push('\n'), l.push('\n'));
        assert(lines(x.push('\n')) =~= py.push(l));
    } else {
        assert forall|k: int| 0 <= k < x.len() implies #[trigger] x[k] != '\n' by {}
        assert(pieces(x)[0] == x);
        lemma_lines_single(x);
    }
}

/// Two texts without `c`, one after the other, hold no `c`.
pub proof fn lemma_lacks_concat(a: Seq<char>, b: Seq<char>, c: char)
    requires
        lacks(a, c),
        lacks(b, c),
    ensures
        lacks(a + b, c),
{
    assert forall|k: int| 0 <= k < (a + b).len() implies #[trigger] (a + b)[k] != c by {
        if k < a.len() {
            assert((a + b)[k] == a[k]);
        } else {
            assert((a + b)[k] == b[k - a.len()]);
        }
    }
}

/// Trailing whitespace of two texts one after the other.
pub proof fn lemma_trailing_spaces_concat(a: Seq<char>, b: Seq<char>)
    ensures
        trailing_spaces(a + b) == if trailing_spaces(b) < b.len() {
            trailing_spaces(b)
        } else {
            b.len() + trailing_spaces(a)
        },
    decreases b.len(),
{
    if b.len() == 0 {
        assert(a + b =~= a);
    } else {
        assert((a + b).drop_last() =~= a + b.drop_last());
        assert((a + b).last() == b.last());
        lemma_trailing_spaces_concat(a, b.drop_last());
        lemma_trailing_spaces_bound(b.drop_last());
    }
}

/// Trimming the end twice is trimming it once.
pub proof fn lemma_trim_end_twice(x: Seq<char>)
    ensures
        trim_end(trim_end(x)) == trim_end(x),
{
    lemma_trailing_spaces_bound(x);
    let t = trim_end(x);
    if t.len() > 0 {
        assert(t.last() == x[x.len() - trailing_spaces(x) - 1]);
    }
    assert(trailing_spaces(t) == 0);
    assert(t.take(t.len() as int) =~= t);
}

/// A final line break is trimmed away with the rest of the trailing
/// whitespace.
pub proof fn lemma_trim_end_newline(t: Seq<char>)
    ensures
        trim_end(t.push('\n')) == trim_end(t),
{
    let s = t.push('\n');
    assert(s.drop_last() =~= t);
    assert(is_space('\n'));
    assert(trailing_spaces(s) == 1 + trailing_spaces(t));
    lemma_trailing_spaces_bound(t);
    assert(s.take(s.len() - trailing_spaces(s)) =~= t.take(t.len() - trailing_spaces(t)));
}

/// Whether `q` is one of `ps` or one of `ps` trimmed at the end.
pub open spec fn from_pieces(q: Seq<char>, ps: Seq<Seq<char>>) -> bool {
    exists|j: int| 0 <= j < ps.len() && (q == #[trigger] ps[j] || q == trim_end(ps[j]))
}

/// Every piece of a text trimmed at the end is a piece of the text, or such a
/// piece trimmed at the end.
pub proof fn lemma_pieces_trim_end(x: Seq<char>)
    ensures
        forall|k: int|
            0 <= k < pieces(trim_end(x)).len() ==> from_pieces(
                #[trigger] pieces(trim_end(x))[k],
                pieces(x),
            ),
    decreases x.len(),
{
    lemma_last_index(x, '\n');
    lemma_trailing_spaces_bound(x);
    let i = last_index(x, '\n');
    let t = trim_end(x);
    if 0 <= i && i < x.len() {
        let y = x.take(i);
        let l = x.skip(i + 1);
        let px = pieces(x);
        assert(px == pieces(y).push(l));
        let nl = seq!['\n'];
        assert(x =~= y + (nl + l));
        lemma_trailing_spaces_concat(y, nl + l);
        lemma_trailing_spaces_concat(nl, l);
        assert(nl.drop_last() =~= Seq::<char>::empty());
        assert(trailing_spaces(Seq::<char>::empty()) == 0);
        assert(is_space('\n'));
        assert(trailing_spaces(nl) == 1);
        assert forall|k: int| 0 <= k < l.len() implies #[trigger] l[k] != '\n' by {
            assert(l[k] == x[k + i + 1]);
        }
        if trailing_spaces(l) < l.len() {
            let tl = trim_end(l);
            assert(t =~= y + nl + tl);
            assert forall|k: int| 0 <= k < tl.len() implies #[trigger] tl[k] != '\n' by {
                assert(tl[k] == l[k]);
            }
            lemma_pieces_push(y, tl);
            assert forall|k: int| 0 <= k < pieces(t).len() implies from_pieces(
                #[trigger] pieces(t)[k],
                px,
            ) by {
                if k < pieces(y).len() {
                    assert(pieces(t)[k] == px[k]);
                } else {
                    assert(pieces(t)[k] == trim_end(px[k]));
                }
            }
        } else {
            assert(trailing_spaces(x) == l.len() + 1 + trailing_spaces(y));
            lemma_trailing_spaces_bound(y);
            assert(t =~= trim_end(y));
            lemma_pieces_trim_end(y);
            assert forall|k: int| 0 <= k < pieces(t).len() implies from_pieces(
                #[trigger] pieces(t)[k],
                px,
            ) by {
                assert(from_pieces(pieces(trim_end(y))[k], pieces(y)));
                let j = choose|j: int|
                    0 <= j < pieces(y).len() && (pieces(t)[k] == #[trigger] pieces(y)[j]
                        || pieces(t)[k] == trim_end(pieces(y)[j]));
                assert(px[j] == pieces(y)[j]);
            }
        }
    } else {
        assert forall|k: int| 0 <= k < t.len() implies #[trigger] t[k] != '\n' by {
            assert(t[k] == x[k]);
        }
        lemma_pieces_single(x);
        lemma_pieces_single(t);
        assert(pieces(t)[0] == trim_end(pieces(x)[0]));
        assert(from_pieces(pieces(t)[0], pieces(x)));
    }
}

/// No line of a text holds a line break.
pub proof fn lemma_lines_chars(s: Seq<char>)
    ensures
        forall|k: int| 0 <= k < lines(s).len() ==> lacks(#[trigger] lines(s)[k], '\n'),
    decreases s.len(),
{
    if s.len() > 0 {
        lemma_line_end(s);
        let e = line_end(s);
        if e < s.len() {
            let rest = s.skip((e + 1) as int);
            lemma_lines_chars(rest);
            let first = drop_cr(s.take(e as int));
            assert forall|k: int| 0 <= k < first.len() implies #[trigger] first[k] != '\n' by {
                assert(first[k] == s[k]);
            }
            let ls = lines(s);
            assert(ls == seq![first] + lines(rest));
            assert forall|k: int| 0 <= k < ls.len() implies lacks(#[trigger] ls[k], '\n') by {
                if k > 0 {
                    assert(ls[k] == lines(rest)[k - 1]);
                }
            }
        }
    }
}

// ---------------------------------------------------------------------------
// Searching
// ---------------------------------------------------------------------------

/// Position of the last `c` in `s` (`-1` if none), as `str::rfind` finds it.
pub open spec fn last_index(s: Seq<char>, c: char) -> int
    decreases s.len(),
{
    if s.len() == 0 {
        -1
    } else if s.last() == c {
        s.len() - 1
    } else {
        last_index(s.drop_last(), c)
    }
}

/// `last_index` finds an occurrence of `c` with none after it, or `-1` when
/// `c` does not occur.
pub proof fn lemma_last_index(s: Seq<char>, c: char)
    ensures
        -1 <= last_index(s, c) < s.len(),
        last_index(s, c) >= 0 ==> s[last_index(s, c)] == c,
        forall|k: int| last_index(s, c) < k < s.len() ==> #[trigger] s[k] != c,
    decreases s.len(),
{
    if s.len() > 0 && s.last() != c {
        lemma_last_index(s.drop_last(), c);
        assert forall|k: int| last_index(s, c) < k < s.len() implies #[trigger] s[k] != c by {
            if k < s.len() - 1 {
                assert(s[k] == s.drop_last()[k]);
            }
        }
    }
}

/// A position holding `c` with no `c` after it is the last position of `c`.
pub proof fn lemma_last_index_at(s: Seq<char>, c: char, i: int)
    requires
        0 <= i < s.len(),
        s[i] == c,
        forall|k: int| i < k < s.len() ==> #[trigger] s[k] != c,
    ensures
        last_index(s, c) == i,
{
    lemma_last_index(s, c);
    let l = last_index(s, c);
    if l < i {
        assert(s[i] != c);
    }
    if l > i {
        assert(s[l] != c);
    }
}

/// Position of the last `c` in `v`, if any.
pub fn rfind_char(v: &Vec<char>, c: char) -> (r: Option<usize>)
    ensures
        match r {
            Some(i) => i == last_index(v@, c),
            None => last_index(v@, c) == -1,
        },
{
    let mut j: usize = v.len();
    proof {
        assert(v@.take(v.len() as int) =~= v@);
    }
    while j > 0 && v[j - 1] != c
        invariant
            j <= v.len(),
            last_index(v@, c) == last_index(v@.take(j as int), c),
        decreases j,
    {
        proof {
            assert(v@.take(j as int).drop_last() =~= v@.take(j - 1));
        }
        j -= 1;
    }
    if j == 0 {
        None
    } else {
        Some(j - 1)
    }
}

/// Whether `s` begins with `p` (`str::starts_with`).
pub open spec fn starts_with(s: Seq<char>, p: Seq<char>) -> bool {
    p.len() <= s.len() && s.take(p.len() as int) == p
}

/// Whether `v` begins with `p`.
pub fn starts_with_chars(v: &Vec<char>, p: &Vec<char>) -> (b: bool)
    ensures
        b == starts_with(v@, p@),
{
    if p.len() > v.len() {
        return false;
    }
    let mut i: usize = 0;
    while i < p.len()
        invariant
            i <= p.len() <= v.len(),
            forall|k: int| 0 <= k < i ==> v@[k] == p@[k],
        decreases p.len() - i,
    {
        if v[i] != p[i] {
            proof {
                assert(v@.take(p.len() as int)[i as int] != p@[i as int]);
            }
            return false;
        }
        i += 1;
    }
    proof {
        assert(v@.take(p.len() as int) =~= p@);
    }
    true
}

// ---------------------------------------------------------------------------
// Joining and building strings
// ---------------------------------------------------------------------------

/// The lines `ls` joined with `'\n'` between them (`[&str]::join("\n")`).
pub open spec fn join_lines(ls: Seq<Seq<char>>) -> Seq<char>
    decreases ls.len(),
{
    if ls.len() == 0 {
        seq![]
    } else if ls.len() == 1 {
        ls[0]
    } else {
        join_lines(ls.drop_last()) + seq!['\n'] + ls.last()
    }
}

/// Appends one character (calls `String::push`).
#[verifier::external_body]
pub(crate) fn push_char(s: &mut String, c: char)
    ensures
        final(s)@ == old(s)@.push(c),
{
    s.push(c);
}

/// Removes and returns the last character (calls `String::pop`).
#[verifier::external_body]
pub(crate) fn pop_char(s: &mut String) -> (r: Option<char>)
    ensures
        old(s)@.len() == 0 ==> r is None && final(s)@ == old(s)@,
        old(s)@.len() > 0 ==> r == Some(old(s)@.last()) && final(s)@ == old(s)@.drop_last(),
{
    s.pop()
}

/// Appends the characters of `v` to `s`.
pub fn push_chars(s: &mut String, v: &Vec<char>)
    ensures
        final(s)@ == old(s)@ + v@,
{
    let mut i: usize = 0;
    let ghost start = s@;
    while i < v.len()
        invariant
            i <= v.len(),
            s@ == start + v@.take(i as int),
        decreases v.len() - i,
    {
        push_char(s, v[i]);
        proof {
            assert(v@.take(i + 1) =~= v@.take(i as int).push(v@[i as int]));
        }
        i += 1;
    }
    proof {
        assert(v@.take(v.len() as int) =~= v@);
    }
}

/// A string holding the characters of `v`.
pub fn string_of(v: &Vec<char>) -> (s: String)
    ensures
        s@ == v@,
{
    let mut s = String::new();
    push_chars(&mut s, v);
    s
}

/// `ls` joined with `'\n'` between the lines.
pub fn join_lines_string(ls: &Vec<Vec<char>>) -> (s: String)
    ensures
        s@ == join_lines(views(ls@)),
{
    let mut s = String::new();
    let mut i: usize = 0;
    while i < ls.len()
        invariant
            i <= ls.len(),
            s@ == join_lines(views(ls@).take(i as int)),
        decreases ls.len() - i,
    {
        let ghost before = s@;
        if i > 0 {
            push_char(&mut s, '\n');
        }
        push_chars(&mut s, &ls[i]);
        proof {
            let t = views(ls@).take(i + 1);
            assert(t.drop_last() =~= views(ls@).take(i as int));
            assert(t.last() == ls[i as int]@);
            if i == 0 {
                assert(before =~= Seq::<char>::empty());
                assert(s@ =~= join_lines(t));
            } else {
                assert(s@ =~= join_lines(t));
            }
        }
        i += 1;
    }
    proof {
        assert(views(ls@).take(ls.len() as int) =~= views(ls@));
    }
    s
}

// ---------------------------------------------------------------------------
// Case folding
// ---------------------------------------------------------------------------

/// Whether every character of `s` is ASCII.
pub open spec fn is_ascii(s: Seq<char>) -> bool {
    forall|k: int| 0 <= k < s.len() ==> (#[trigger] s[k] as u32) < 128
}

/// `c` with an ASCII capital letter replaced by its small letter.
pub open spec fn ascii_lower_char(c: char) -> char {
    if 'A' <= c && c <= 'Z' {
        ((c as u32) + 32) as char
    } else {
        c
    }
}

/// `s` with each ASCII capital letter replaced by its small letter.
pub open spec fn ascii_lower(s: Seq<char>) -> Seq<char> {
    s.map_values(|c: char| ascii_lower_char(c))
}

/// The text that `str::to_lowercase` returns for `s`. Unicode lowercase
/// mapping is a function of `s` alone; it is named here, not restated.
pub uninterp spec fn lowercase(s: Seq<char>) -> Seq<char>;

/// What `to_lowercase` states of ASCII text, for every text: ASCII text
/// lowercases letter by letter, and an ASCII beginning of a text lowercases
/// letter by letter to the beginning of its lowercase.
pub open spec fn lowercase_keeps_ascii() -> bool {
    &&& forall|s: Seq<char>| is_ascii(s) ==> #[trigger] lowercase(s) == ascii_lower(s)
    &&& forall|s: Seq<char>, n: int|
        0 <= n <= s.len() && is_ascii(#[trigger] s.take(n)) ==> n <= lowercase(s).len()
            && #[trigger] lowercase(s).take(n) == ascii_lower(s.take(n))
}

/// Calls `str::to_lowercase`. The contract claims that the result is the
/// lowercase mapping of `s` (a function of `s` alone), and, of ASCII
/// characters, what Unicode lowercasing does to them: each lowercases on its
/// own, `A`..`Z` to `a`..`z` and every other ASCII character to itself, so
/// ASCII text becomes its ASCII lowercase, and an ASCII beginning of any text
/// becomes the ASCII lowercase beginning of the result. Of other characters
/// it claims nothing.
#[verifier::external_body]
pub(crate) fn to_lowercase(s: &str) -> (r: String)
    ensures
        r@ == lowercase(s@),
        is_ascii(s@) ==> r@ == ascii_lower(s@),
        forall|n: int|
            0 <= n <= s@.len() && is_ascii(#[trigger] s@.take(n)) ==> n <= r@.len() && r@.take(n)
                == ascii_lower(s@.take(n)),
{
    s.to_lowercase()
}

} // verus!
