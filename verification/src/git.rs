//! Contributors and commit-message text: the pinned-authors file format, the
//! co-author trailers of a commit message, and the rules that turn commit
//! authors into the list of candidate co-authors.
use vstd::prelude::*;
use vstd::hash_set::StringHashSet;
use vstd::string::StringExecFns;
use crate::text::{
    chars_of, drop_cr, ends_with_cr, from_pieces, is_space, join_lines, lacks, lemma_join_pieces,
    lemma_lacks_concat, lemma_lines_chars, lemma_lines_push_blank, lemma_lines_push_close,
    lemma_trim_drop_cr, lemma_trim_start_end, is_ascii, ascii_lower, ascii_lower_char, lowercase_keeps_ascii, lemma_pieces_join, lemma_pieces_len, lemma_pieces_lines,
    lemma_pieces_push, lemma_pieces_trim_end, lemma_trim_end_newline, lemma_trim_end_twice, pieces, join_lines_string, last_index, lemma_last_index,
    lemma_last_index_at, lemma_line_end, lemma_line_end_at, lemma_lines_append, lemma_lines_single,
    lemma_trim_end_padded, lemma_trim_keeps_first,
    lemma_trim_start_unchanged, lemma_trim_unchanged, line_end, lines,
    lowercase, rfind_char, slice_chars, split_lines, starts_with, starts_with_chars, string_of,
    to_lowercase, trim, trim_chars, trim_end, trim_end_chars, trim_start, trim_start_chars, views,
};

verus! {

broadcast use vstd::string::group_string_axioms;

/// A contributor as the logic sees one: a name and an email address.
pub type Person = (Seq<char>, Seq<char>);

/// A commit author or pinned author.
#[derive(Debug, Clone, PartialEq, Eq, Hash)]
pub struct Contributor {
    pub name: String,
    pub email: String,
}

impl View for Contributor {
    type V = Person;

    open spec fn view(&self) -> Person {
        (self.name@, self.email@)
    }
}

/// The people held by a list of contributors.
pub open spec fn people(cs: Seq<Contributor>) -> Seq<Person> {
    cs.map_values(|c: Contributor| c@)
}

/// The person held by an optional contributor.
pub open spec fn person_of(c: Option<Contributor>) -> Option<Person> {
    match c {
        Some(c) => Some(c@),
        None => None,
    }
}

/// `Name <email>`.
pub open spec fn display_text(p: Person) -> Seq<char> {
    p.0 + " <"@ + p.1 + ">"@
}

impl Contributor {
    /// The contributor as `Name <email>`.
    pub fn display(&self) -> (r: String)
        ensures
            r@ == display_text(self@),
    {
        let mut s = self.name.clone();
        s.append(" <");
        s.append(self.email.as_str());
        s.append(">");
        s
    }

    /// A copy of this contributor.
    pub(crate) fn duplicate(&self) -> (r: Contributor)
        ensures
            r@ == self@,
    {
        Contributor { name: self.name.clone(), email: self.email.clone() }
    }
}

// ---------------------------------------------------------------------------
// The pinned-authors file
// ---------------------------------------------------------------------------

/// What one line of the pinned-authors file contributes: a line is trimmed;
/// empty lines and lines starting with `#` are skipped; otherwise the name is
/// the trimmed text before the last `<` and the email the trimmed text between
/// the last `<` and the last `>`, and both must be non-empty.
pub open spec fn parse_author_line(line: Seq<char>) -> Option<Person> {
    let t = trim(line);
    if t.len() == 0 || t[0] == '#' {
        None
    } else {
        let lt = last_index(t, '<');
        let gt = last_index(t, '>');
        if 0 <= lt && 0 <= gt && lt < gt {
            let name = trim(t.take(lt));
            let email = trim(t.subrange(lt + 1, gt));
            if name.len() > 0 && email.len() > 0 {
                Some((name, email))
            } else {
                None
            }
        } else {
            None
        }
    }
}

/// The authors that a sequence of lines holds, in line order.
pub open spec fn parse_author_lines(ls: Seq<Seq<char>>) -> Seq<Person>
    decreases ls.len(),
{
    if ls.len() == 0 {
        seq![]
    } else {
        let prev = parse_author_lines(ls.drop_last());
        match parse_author_line(ls.last()) {
            Some(p) => prev.push(p),
            None => prev,
        }
    }
}

/// The author that one line holds, if any.
fn parse_line(line: &Vec<char>) -> (r: Option<Contributor>)
    ensures
        person_of(r) == parse_author_line(line@),
{
    let t = trim_chars(line);
    if t.len() == 0 || t[0] == '#' {
        return None;
    }
    let lt = rfind_char(&t, '<');
    let gt = rfind_char(&t, '>');
    proof {
        lemma_last_index(t@, '<');
        lemma_last_index(t@, '>');
    }
    match (lt, gt) {
        (Some(s), Some(e)) => {
            if s < e {
                let name = trim_chars(&slice_chars(&t, 0, s));
                let email = trim_chars(&slice_chars(&t, s + 1, e));
                if name.len() > 0 && email.len() > 0 {
                    proof {
                        assert(t@.subrange(0, s as int) =~= t@.take(s as int));
                    }
                    Some(Contributor { name: string_of(&name), email: string_of(&email) })
                } else {
                    proof {
                        assert(t@.subrange(0, s as int) =~= t@.take(s as int));
                    }
                    None
                }
            } else {
                None
            }
        },
        _ => None,
    }
}

/// The authors listed in the text of a pinned-authors file, one
/// `Name <email>` per line, in file order; comment lines (`#`), empty lines
/// and malformed lines are skipped.
pub fn parse_authors(content: &str) -> (r: Vec<Contributor>)
    ensures
        people(r@) == parse_author_lines(lines(content@)),
{
    let chars = chars_of(content);
    let ls = split_lines(&chars);
    let mut r: Vec<Contributor> = Vec::new();
    let mut i: usize = 0;
    while i < ls.len()
        invariant
            i <= ls.len(),
            views(ls@) == lines(content@),
            people(r@) == parse_author_lines(views(ls@).take(i as int)),
        decreases ls.len() - i,
    {
        let parsed = parse_line(&ls[i]);
        let ghost before = r@;
        proof {
            let t = views(ls@).take(i + 1);
            assert(t.drop_last() =~= views(ls@).take(i as int));
            assert(t.last() == ls@[i as int]@);
        }
        match parsed {
            Some(c) => {
                r.push(c);
                proof {
                    assert(people(r@) =~= people(before).push(r@.last()@));
                }
            },
            None => {},
        }
        i += 1;
    }
    proof {
        assert(views(ls@).take(ls.len() as int) =~= views(ls@));
    }
    r
}

/// The first line of the file written for a new user, before any entry.
pub const TEMPLATE_INTRO: &'static str = "# cac authors — add one author per line in \"Name <email>\" format\n# Lines starting with # are comments and are ignored\n";

/// The line that introduces the user's own example entry.
pub const TEMPLATE_EXAMPLE_NOTE: &'static str = "# Your own entry below is just a format example — it is filtered out automatically\n";

/// The text of a new pinned-authors file: the comment header and, where the
/// user is known, the user's own entry as a format example.
pub open spec fn template_text(user: Option<Person>) -> Seq<char> {
    match user {
        Some(u) => TEMPLATE_INTRO@ + TEMPLATE_EXAMPLE_NOTE@ + display_text(u) + "\n"@,
        None => TEMPLATE_INTRO@,
    }
}

/// The text written to a new pinned-authors file.
pub fn authors_template(user: &Option<Contributor>) -> (r: String)
    ensures
        r@ == template_text(person_of(*user)),
{
    let mut s = String::from_str(TEMPLATE_INTRO);
    match user {
        Some(u) => {
            s.append(TEMPLATE_EXAMPLE_NOTE);
            let d = u.display();
            s.append(d.as_str());
            s.append("\n");
        },
        None => {},
    }
    s
}

// ---------------------------------------------------------------------------
// Co-author trailers
// ---------------------------------------------------------------------------

/// The prefix that marks a co-author trailer, compared in lowercase.
pub const TRAILER_KEY: &'static str = "co-authored-by:";

/// Whether a message line is a co-author trailer: with leading whitespace
/// removed and lowercased, it begins with `co-authored-by:`.
pub open spec fn is_trailer(line: Seq<char>) -> bool {
    starts_with(lowercase(trim_start(line)), TRAILER_KEY@)
}

/// The lines that are not co-author trailers, in order.
pub open spec fn non_trailers(ls: Seq<Seq<char>>) -> Seq<Seq<char>>
    decreases ls.len(),
{
    if ls.len() == 0 {
        seq![]
    } else {
        let prev = non_trailers(ls.drop_last());
        if is_trailer(ls.last()) {
            prev
        } else {
            prev.push(ls.last())
        }
    }
}

/// A message without its co-author trailer lines.
pub open spec fn stripped(msg: Seq<char>) -> Seq<char> {
    join_lines(non_trailers(lines(msg)))
}

/// Whether a line is a co-author trailer.
fn is_trailer_line(line: &Vec<char>) -> (b: bool)
    ensures
        b == is_trailer(line@),
{
    let rest = trim_start_chars(line);
    let text = string_of(&rest);
    let low = to_lowercase(text.as_str());
    let low_chars = chars_of(low.as_str());
    let key = chars_of(TRAILER_KEY);
    starts_with_chars(&low_chars, &key)
}

/// The message with every co-author trailer line removed; the other lines
/// are kept in order and joined with `'\n'`.
pub fn strip_coauthor_trailers(msg: &str) -> (r: String)
    ensures
        r@ == stripped(msg@),
        r@ == join_lines(
            lines(msg@).filter(
                |l: Seq<char>| !starts_with(lowercase(trim_start(l)), "co-authored-by:"@),
            ),
        ),
{
    let chars = chars_of(msg);
    let ls = split_lines(&chars);
    let mut kept: Vec<Vec<char>> = Vec::new();
    let mut i: usize = 0;
    while i < ls.len()
        invariant
            i <= ls.len(),
            views(ls@) == lines(msg@),
            views(kept@) == non_trailers(views(ls@).take(i as int)),
        decreases ls.len() - i,
    {
        let ghost before = kept@;
        proof {
            let t = views(ls@).take(i + 1);
            assert(t.drop_last() =~= views(ls@).take(i as int));
            assert(t.last() == ls@[i as int]@);
        }
        if !is_trailer_line(&ls[i]) {
            kept.push(slice_chars(&ls[i], 0, ls[i].len()));
            proof {
                assert(ls@[i as int]@.subrange(0, ls@[i as int]@.len() as int) =~= ls@[i as int]@);
                assert(views(kept@) =~= views(before).push(ls@[i as int]@));
            }
        }
        i += 1;
    }
    proof {
        lemma_stripped_keeps_lines(msg@);
        assert(views(ls@).take(ls.len() as int) =~= views(ls@));
    }
    join_lines_string(&kept)
}

/// Stripping keeps every line of the message except those that, with their
/// leading whitespace removed and lowercased, begin with `co-authored-by:`;
/// the kept lines stay in order and are joined with `'\n'`.
pub proof fn lemma_stripped_keeps_lines(msg: Seq<char>)
    ensures
        stripped(msg) == join_lines(
            lines(msg).filter(
                |l: Seq<char>| !starts_with(lowercase(trim_start(l)), "co-authored-by:"@),
            ),
        ),
{
    lemma_non_trailers_filter(lines(msg));
}

/// The lines that are not trailers are those that do not begin with
/// `co-authored-by:` once lowercased after their leading whitespace.
proof fn lemma_non_trailers_filter(ls: Seq<Seq<char>>)
    ensures
        non_trailers(ls) == ls.filter(
            |l: Seq<char>| !starts_with(lowercase(trim_start(l)), "co-authored-by:"@),
        ),
    decreases ls.len(),
{
    assert(TRAILER_KEY@ == "co-authored-by:"@);
    reveal(Seq::filter);
    let f = |l: Seq<char>| !starts_with(lowercase(trim_start(l)), "co-authored-by:"@);
    if ls.len() == 0 {
        assert(non_trailers(ls) =~= ls.filter(f));
    } else {
        lemma_non_trailers_filter(ls.drop_last());
        assert(f(ls.last()) == !is_trailer(ls.last()));
        assert(non_trailers(ls) =~= ls.filter(f));
    }
}

/// The co-author trailer lines for `cs`, each preceded by `'\n'`.
pub open spec fn trailer_block(cs: Seq<Person>) -> Seq<char>
    decreases cs.len(),
{
    if cs.len() == 0 {
        seq![]
    } else {
        trailer_block(cs.drop_last()) + "\nCo-authored-by: "@ + cs.last().0 + " <"@ + cs.last().1
            + ">"@
    }
}

/// The message an amended commit gets: the old message without its trailers
/// and trailing whitespace, an empty line, one trailer per co-author in order,
/// and a final line ending.
pub open spec fn amended_text(msg: Seq<char>, cs: Seq<Person>) -> Seq<char> {
    kept_text(msg) + "\n"@ + trailer_block(cs) + "\n"@
}

/// The part of a message that an amend keeps: the message without its
/// trailers and without trailing whitespace.
pub open spec fn kept_text(msg: Seq<char>) -> Seq<char> {
    trim_end(stripped(msg))
}

/// The new message for a commit amended with `coauthors`.
pub fn amended_message(original_msg: &str, coauthors: &[Contributor]) -> (r: String)
    ensures
        r@ == amended_text(original_msg@, people(coauthors@)),
{
    let base = strip_coauthor_trailers(original_msg);
    let base_chars = chars_of(base.as_str());
    let trimmed = trim_end_chars(&base_chars);
    let mut msg = string_of(&trimmed);
    msg.append("\n");
    let ghost head = msg@;
    let mut i: usize = 0;
    while i < coauthors.len()
        invariant
            i <= coauthors.len(),
            msg@ == head + trailer_block(people(coauthors@).take(i as int)),
        decreases coauthors.len() - i,
    {
        let ghost before = msg@;
        msg.append("\nCo-authored-by: ");
        msg.append(coauthors[i].name.as_str());
        msg.append(" <");
        msg.append(coauthors[i].email.as_str());
        msg.append(">");
        proof {
            let t = people(coauthors@).take(i + 1);
            assert(t.drop_last() =~= people(coauthors@).take(i as int));
            assert(t.last() == coauthors@[i as int]@);
            assert(msg@ =~= head + trailer_block(t));
        }
        i += 1;
    }
    proof {
        assert(people(coauthors@).take(coauthors.len() as int) =~= people(coauthors@));
    }
    msg.append("\n");
    msg
}

// ---------------------------------------------------------------------------
// Candidate co-authors
// ---------------------------------------------------------------------------

/// The key by which contributors are matched: the lowercased email.
pub open spec fn email_key(p: Person) -> Seq<char> {
    lowercase(p.1)
}

/// Whether some person of `ps` has the email key `key`.
pub open spec fn has_email(ps: Seq<Person>, key: Seq<char>) -> bool {
    exists|k: int| 0 <= k < ps.len() && #[trigger] email_key(ps[k]) == key
}

/// Whether `p` is the user `me` (same email, ignoring case).
pub open spec fn is_user(me: Option<Person>, p: Person) -> bool {
    match me {
        Some(m) => email_key(m) == email_key(p),
        None => false,
    }
}

/// The contributors found in a history walk, given the authors in walk order:
/// authors with an empty name or email and the user are skipped, and of
/// several authors with the same email (ignoring case) the first is kept,
/// with its own spelling.
pub open spec fn unique_authors(authors: Seq<Person>, me: Option<Person>) -> Seq<Person>
    decreases authors.len(),
{
    if authors.len() == 0 {
        seq![]
    } else {
        let prev = unique_authors(authors.drop_last(), me);
        let a = authors.last();
        if a.0.len() == 0 || a.1.len() == 0 || is_user(me, a) || has_email(prev, email_key(a)) {
            prev
        } else {
            prev.push(a)
        }
    }
}

/// The people of `cs` who are not the user `me`, in order.
pub open spec fn without_person(cs: Seq<Person>, me: Option<Person>) -> Seq<Person>
    decreases cs.len(),
{
    if cs.len() == 0 {
        seq![]
    } else {
        let prev = without_person(cs.drop_last(), me);
        if is_user(me, cs.last()) {
            prev
        } else {
            prev.push(cs.last())
        }
    }
}

/// The people of `history` whose email (ignoring case) no one in `pinned` has.
pub open spec fn not_pinned(history: Seq<Person>, pinned: Seq<Person>) -> Seq<Person>
    decreases history.len(),
{
    if history.len() == 0 {
        seq![]
    } else {
        let prev = not_pinned(history.drop_last(), pinned);
        if has_email(pinned, email_key(history.last())) {
            prev
        } else {
            prev.push(history.last())
        }
    }
}

/// The candidate list: pinned authors first, in file order, then the
/// history contributors that are not pinned.
pub open spec fn merged(pinned: Seq<Person>, history: Seq<Person>) -> Seq<Person> {
    pinned + not_pinned(history, pinned)
}

/// The lowercased email of `c`.
fn email_key_of(c: &Contributor) -> (r: String)
    ensures
        r@ == email_key(c@),
{
    to_lowercase(c.email.as_str())
}

/// The lowercased emails of `ps`.
pub open spec fn key_set(ps: Seq<Person>) -> Set<Seq<char>> {
    Set::new(|x: Seq<char>| exists|j: int| 0 <= j < ps.len() && email_key(#[trigger] ps[j]) == x)
}

/// One more person adds that person's lowercased email.
proof fn lemma_key_set_push(ps: Seq<Person>, p: Person)
    ensures
        key_set(ps.push(p)) == key_set(ps).insert(email_key(p)),
{
    let q = ps.push(p);
    assert forall|x: Seq<char>| key_set(q).contains(x) <==> key_set(ps).insert(email_key(p)).contains(
        x,
    ) by {
        if key_set(q).contains(x) {
            let j = choose|j: int| 0 <= j < q.len() && email_key(#[trigger] q[j]) == x;
            if j < ps.len() {
                assert(q[j] == ps[j]);
            }
        }
        if key_set(ps).contains(x) {
            let j = choose|j: int| 0 <= j < ps.len() && email_key(#[trigger] ps[j]) == x;
            assert(q[j] == ps[j]);
        }
        if x == email_key(p) {
            assert(q[ps.len() as int] == p);
        }
    }
    assert(key_set(q) =~= key_set(ps).insert(email_key(p)));
}

/// Whether `c` is the user `myself`.
fn is_user_exec(myself: &Option<Contributor>, c: &Contributor) -> (b: bool)
    ensures
        b == is_user(person_of(*myself), c@),
{
    match myself {
        Some(me) => email_key_of(me) == email_key_of(c),
        None => false,
    }
}

/// The candidate co-authors found in a history walk, from the commit authors
/// in walk order (newest first): authors with an empty name or email and the
/// user are skipped, and an email seen before (ignoring case) is not added
/// again.
pub fn unique_contributors(authors: &Vec<Contributor>, myself: &Option<Contributor>) -> (r: Vec<
    Contributor,
>)
    ensures
        people(r@) == unique_authors(people(authors@), person_of(*myself)),
{
    let ghost me = person_of(*myself);
    let mut r: Vec<Contributor> = Vec::new();
    let mut seen = StringHashSet::new();
    let mut i: usize = 0;
    while i < authors.len()
        invariant
            i <= authors.len(),
            me == person_of(*myself),
            people(r@) == unique_authors(people(authors@).take(i as int), me),
            seen@ == key_set(people(r@)),
        decreases authors.len() - i,
    {
        let a = &authors[i];
        let ghost prev = people(r@);
        proof {
            let t = people(authors@).take(i + 1);
            assert(t.drop_last() =~= people(authors@).take(i as int));
            assert(t.last() == a@);
        }
        if !a.name.as_str().is_empty() && !a.email.as_str().is_empty() && !is_user_exec(myself, a) {
            let key = email_key_of(a);
            let ghost before = seen@;
            proof {
                if before.contains(key@) {
                    let j = choose|j: int| 0 <= j < prev.len() && email_key(#[trigger] prev[j]) == key@;
                    assert(email_key(prev[j]) == email_key(a@));
                } else {
                    assert forall|k: int| 0 <= k < prev.len() implies #[trigger] email_key(prev[k])
                        != email_key(a@) by {
                        if email_key(prev[k]) == email_key(a@) {
                            assert(before.contains(key@));
                        }
                    }
                }
            }
            if seen.insert(key) {
                r.push(a.duplicate());
                proof {
                    assert(people(r@) =~= prev.push(a@));
                    lemma_key_set_push(prev, a@);
                }
            }
        } else {
            proof {
                assert(a.name@.len() == 0 || a.email@.len() == 0 || is_user(me, a@));
            }
        }
        i += 1;
    }
    proof {
        assert(people(authors@).take(authors.len() as int) =~= people(authors@));
    }
    r
}

/// The contributors that are not the user `myself`, in order.
pub fn without_user(contributors: &Vec<Contributor>, myself: &Option<Contributor>) -> (r: Vec<
    Contributor,
>)
    ensures
        people(r@) == without_person(people(contributors@), person_of(*myself)),
        people(r@) == people(contributors@).filter(
            |p: Person|
                person_of(*myself) is None || lowercase((person_of(*myself)->0).1) != lowercase(p.1),
        ),
{
    let mut r: Vec<Contributor> = Vec::new();
    let mut i: usize = 0;
    while i < contributors.len()
        invariant
            i <= contributors.len(),
            people(r@) == without_person(
                people(contributors@).take(i as int),
                person_of(*myself),
            ),
        decreases contributors.len() - i,
    {
        let ghost prev = people(r@);
        proof {
            let t = people(contributors@).take(i + 1);
            assert(t.drop_last() =~= people(contributors@).take(i as int));
            assert(t.last() == contributors@[i as int]@);
        }
        if !is_user_exec(myself, &contributors[i]) {
            r.push(contributors[i].duplicate());
            proof {
                assert(people(r@) =~= prev.push(contributors@[i as int]@));
            }
        }
        i += 1;
    }
    proof {
        lemma_without_person_keeps_others(people(contributors@), person_of(*myself));
        assert(people(contributors@).take(contributors.len() as int) =~= people(contributors@));
    }
    r
}

/// The candidate list: the pinned authors first, in file order, then the
/// history contributors whose email (ignoring case) no pinned author has.
pub fn merge_contributors(pinned: &Vec<Contributor>, history: &Vec<Contributor>) -> (r: Vec<
    Contributor,
>)
    ensures
        people(r@) == merged(people(pinned@), people(history@)),
        people(r@) == people(pinned@) + people(history@).filter(
            |h: Person|
                !exists|j: int|
                    0 <= j < pinned.len() && lowercase(#[trigger] people(pinned@)[j].1) == lowercase(h.1),
        ),
{
    let ghost p = people(pinned@);
    let mut r: Vec<Contributor> = Vec::new();
    let mut keys = StringHashSet::new();
    let mut i: usize = 0;
    while i < pinned.len()
        invariant
            i <= pinned.len(),
            people(r@) == p.take(i as int),
            keys@ == key_set(p.take(i as int)),
            p == people(pinned@),
        decreases pinned.len() - i,
    {
        let ghost prev = r@;
        r.push(pinned[i].duplicate());
        keys.insert(email_key_of(&pinned[i]));
        proof {
            assert(p[i as int] == pinned@[i as int]@);
            assert(p.take(i + 1) =~= p.take(i as int).push(p[i as int]));
            lemma_key_set_push(p.take(i as int), p[i as int]);
            assert(people(r@) =~= people(prev).push(pinned@[i as int]@));
        }
        i += 1;
    }
    proof {
        assert(p.take(pinned.len() as int) =~= p);
        assert(not_pinned(people(history@).take(0), p) =~= Seq::<Person>::empty());
        assert(people(r@) =~= p + not_pinned(people(history@).take(0), p));
    }
    let mut i: usize = 0;
    while i < history.len()
        invariant
            i <= history.len(),
            p == people(pinned@),
            keys@ == key_set(p),
            people(r@) == p + not_pinned(people(history@).take(i as int), p),
        decreases history.len() - i,
    {
        let ghost prev = people(r@);
        let ghost h = people(history@).take(i + 1);
        proof {
            assert(h.drop_last() =~= people(history@).take(i as int));
            assert(h.last() == history@[i as int]@);
        }
        let key = email_key_of(&history[i]);
        let found = keys.contains(key.as_str());
        proof {
            if found {
                let j = choose|j: int| 0 <= j < p.len() && email_key(#[trigger] p[j]) == key@;
                assert(email_key(p[j]) == email_key(history@[i as int]@));
            } else {
                assert forall|k: int| 0 <= k < p.len() implies #[trigger] email_key(p[k])
                    != email_key(history@[i as int]@) by {
                    if email_key(p[k]) == email_key(history@[i as int]@) {
                        assert(key_set(p).contains(key@));
                    }
                }
            }
        }
        if !found {
            r.push(history[i].duplicate());
            proof {
                assert(people(r@) =~= prev.push(history@[i as int]@));
            }
        }
        i += 1;
    }
    proof {
        lemma_merged_keeps_unpinned(people(pinned@), people(history@));
        assert(people(history@).take(history.len() as int) =~= people(history@));
    }
    r
}

// ---------------------------------------------------------------------------
// Laws of the candidate list
// ---------------------------------------------------------------------------

/// No two people of `ps` share an email (ignoring case).
pub open spec fn distinct_emails(ps: Seq<Person>) -> bool {
    forall|i: int, j: int| 0 <= i < j < ps.len() ==> email_key(#[trigger] ps[i]) != email_key(#[trigger] ps[j])
}

/// Whether an author can be offered as a co-author: non-empty name and email,
/// and not the user.
pub open spec fn eligible(a: Person, me: Option<Person>) -> bool {
    a.0.len() > 0 && a.1.len() > 0 && !is_user(me, a)
}

/// The history walk offers each eligible email once: no two contributors
/// share an email (ignoring case); every contributor is eligible; every
/// eligible author's email is offered; and each contributor offered is the
/// first eligible author with that email, spelled as that author spelled it.
pub proof fn lemma_unique_contributors(authors: Seq<Person>, me: Option<Person>)
    ensures
        distinct_emails(unique_authors(authors, me)),
        forall|k: int|
            0 <= k < unique_authors(authors, me).len() ==> eligible(
                #[trigger] unique_authors(authors, me)[k],
                me,
            ),
        forall|i: int|
            0 <= i < authors.len() && eligible(#[trigger] authors[i], me) ==> has_email(
                unique_authors(authors, me),
                email_key(authors[i]),
            ),
        forall|k: int|
            0 <= k < unique_authors(authors, me).len() ==> exists|i: int|
                0 <= i < authors.len() && authors[i] == #[trigger] unique_authors(authors, me)[k]
                    && forall|j: int|
                    0 <= j < i && eligible(authors[j], me) ==> email_key(#[trigger] authors[j])
                        != email_key(authors[i]),
    decreases authors.len(),
{
    let u = unique_authors(authors, me);
    if authors.len() > 0 {
        let d = authors.drop_last();
        let a = authors.last();
        let prev = unique_authors(d, me);
        lemma_unique_contributors(d, me);
        let n = authors.len() - 1;
        let pushed = !(a.0.len() == 0 || a.1.len() == 0 || is_user(me, a) || has_email(
            prev,
            email_key(a),
        ));
        assert(u == if pushed {
            prev.push(a)
        } else {
            prev
        });
        // distinct emails
        assert forall|i: int, j: int| 0 <= i < j < u.len() implies email_key(#[trigger] u[i])
            != email_key(#[trigger] u[j]) by {
            if pushed && j == prev.len() {
                assert(u[i] == prev[i]);
                if email_key(prev[i]) == email_key(a) {
                    assert(has_email(prev, email_key(a)));
                }
            } else {
                assert(u[i] == prev[i] && u[j] == prev[j]);
            }
        }
        // eligibility
        assert forall|k: int| 0 <= k < u.len() implies eligible(#[trigger] u[k], me) by {
            if !(pushed && k == prev.len()) {
                assert(u[k] == prev[k]);
            }
        }
        // completeness
        assert forall|i: int| 0 <= i < authors.len() && eligible(#[trigger] authors[i], me) implies has_email(
            u,
            email_key(authors[i]),
        ) by {
            if i < n {
                assert(authors[i] == d[i]);
                assert(has_email(prev, email_key(d[i])));
                let k = choose|k: int| 0 <= k < prev.len() && #[trigger] email_key(prev[k]) == email_key(d[i]);
                assert(u[k] == prev[k]);
            } else {
                if pushed {
                    assert(u[prev.len() as int] == a);
                } else {
                    let k = choose|k: int| 0 <= k < prev.len() && #[trigger] email_key(prev[k]) == email_key(a);
                    assert(u[k] == prev[k]);
                }
            }
        }
        // first occurrence kept
        assert forall|k: int| 0 <= k < u.len() implies exists|i: int|
            0 <= i < authors.len() && authors[i] == #[trigger] u[k] && forall|j: int|
                0 <= j < i && eligible(authors[j], me) ==> email_key(#[trigger] authors[j])
                    != email_key(authors[i]) by {
            if pushed && k == prev.len() {
                assert(authors[n] == u[k]);
                assert forall|j: int| 0 <= j < n && eligible(authors[j], me) implies email_key(
                    #[trigger] authors[j],
                ) != email_key(authors[n]) by {
                    assert(authors[j] == d[j]);
                    if email_key(authors[j]) == email_key(a) {
                        assert(has_email(prev, email_key(d[j])));
                    }
                }
            } else {
                assert(u[k] == prev[k]);
                let i = choose|i: int|
                    0 <= i < d.len() && d[i] == #[trigger] prev[k] && forall|j: int|
                        0 <= j < i && eligible(d[j], me) ==> email_key(#[trigger] d[j]) != email_key(d[i]);
                assert(authors[i] == d[i]);
                assert forall|j: int| 0 <= j < i && eligible(authors[j], me) implies email_key(
                    #[trigger] authors[j],
                ) != email_key(authors[i]) by {
                    assert(authors[j] == d[j]);
                }
            }
        }
    }
}

/// The history contributors that are not pinned are history contributors
/// that share no email with a pinned author, in order; they keep distinct
/// emails when the history has them.
pub proof fn lemma_not_pinned(history: Seq<Person>, pinned: Seq<Person>)
    ensures
        forall|k: int|
            0 <= k < not_pinned(history, pinned).len() ==> !has_email(
                pinned,
                email_key(#[trigger] not_pinned(history, pinned)[k]),
            ),
        forall|k: int|
            0 <= k < not_pinned(history, pinned).len() ==> history.contains(
                #[trigger] not_pinned(history, pinned)[k],
            ),
        forall|i: int|
            0 <= i < history.len() && !has_email(pinned, email_key(#[trigger] history[i]))
                ==> not_pinned(history, pinned).contains(history[i]),
        distinct_emails(history) ==> distinct_emails(not_pinned(history, pinned)),
    decreases history.len(),
{
    if history.len() > 0 {
        let d = history.drop_last();
        let h = history.last();
        let prev = not_pinned(d, pinned);
        lemma_not_pinned(d, pinned);
        let np = not_pinned(history, pinned);
        let pushed = !has_email(pinned, email_key(h));
        assert(np == if pushed {
            prev.push(h)
        } else {
            prev
        });
        assert forall|k: int| 0 <= k < np.len() implies !has_email(
            pinned,
            email_key(#[trigger] np[k]),
        ) by {
            if !(pushed && k == prev.len()) {
                assert(np[k] == prev[k]);
            }
        }
        assert forall|k: int| 0 <= k < np.len() implies history.contains(#[trigger] np[k]) by {
            if pushed && k == prev.len() {
                assert(history[history.len() - 1] == h);
            } else {
                assert(np[k] == prev[k]);
                assert(d.contains(prev[k]));
                let i = choose|i: int| 0 <= i < d.len() && d[i] == prev[k];
                assert(history[i] == d[i]);
            }
        }
        assert forall|i: int|
            0 <= i < history.len() && !has_email(pinned, email_key(#[trigger] history[i])) implies np.contains(
            history[i],
        ) by {
            if i < d.len() {
                assert(history[i] == d[i]);
                assert(prev.contains(d[i]));
                let k = choose|k: int| 0 <= k < prev.len() && prev[k] == d[i];
                assert(np[k] == prev[k]);
            } else {
                assert(np[prev.len() as int] == h);
            }
        }
        if distinct_emails(history) {
            assert(distinct_emails(d)) by {
                assert forall|i: int, j: int| 0 <= i < j < d.len() implies email_key(#[trigger] d[i])
                    != email_key(#[trigger] d[j]) by {
                    assert(d[i] == history[i] && d[j] == history[j]);
                }
            }
            assert forall|i: int, j: int| 0 <= i < j < np.len() implies email_key(#[trigger] np[i])
                != email_key(#[trigger] np[j]) by {
                if pushed && j == prev.len() {
                    assert(np[i] == prev[i]);
                    assert(d.contains(prev[i]));
                    let x = choose|x: int| 0 <= x < d.len() && d[x] == prev[i];
                    assert(history[x] == d[x]);
                    assert(history[history.len() - 1] == h);
                } else {
                    assert(np[i] == prev[i] && np[j] == prev[j]);
                }
            }
        }
    }
}

/// The candidate list puts the pinned authors first, in file order; a
/// history contributor follows only if no pinned author has its email
/// (ignoring case), and every such history contributor follows; and when the
/// pinned authors and the history contributors each have distinct emails, no
/// two candidates share an email.
pub proof fn lemma_merge_contributors(pinned: Seq<Person>, history: Seq<Person>)
    ensures
        merged(pinned, history).take(pinned.len() as int) == pinned,
        forall|k: int|
            pinned.len() <= k < merged(pinned, history).len() ==> !has_email(
                pinned,
                email_key(#[trigger] merged(pinned, history)[k]),
            ),
        forall|i: int|
            0 <= i < history.len() ==> has_email(
                merged(pinned, history),
                email_key(#[trigger] history[i]),
            ),
        distinct_emails(pinned) && distinct_emails(history) ==> distinct_emails(
            merged(pinned, history),
        ),
{
    let np = not_pinned(history, pinned);
    let m = merged(pinned, history);
    lemma_not_pinned(history, pinned);
    assert(m.take(pinned.len() as int) =~= pinned);
    assert forall|k: int| pinned.len() <= k < m.len() implies !has_email(
        pinned,
        email_key(#[trigger] m[k]),
    ) by {
        assert(m[k] == np[k - pinned.len()]);
    }
    assert forall|i: int| 0 <= i < history.len() implies has_email(m, email_key(#[trigger] history[i])) by {
        if has_email(pinned, email_key(history[i])) {
            let k = choose|k: int| 0 <= k < pinned.len() && #[trigger] email_key(pinned[k]) == email_key(history[i]);
            assert(m[k] == pinned[k]);
        } else {
            assert(np.contains(history[i]));
            let k = choose|k: int| 0 <= k < np.len() && np[k] == history[i];
            assert(m[k + pinned.len()] == np[k]);
        }
    }
    if distinct_emails(pinned) && distinct_emails(history) {
        assert forall|i: int, j: int| 0 <= i < j < m.len() implies email_key(#[trigger] m[i])
            != email_key(#[trigger] m[j]) by {
            if j < pinned.len() {
                assert(m[i] == pinned[i] && m[j] == pinned[j]);
            } else if i < pinned.len() {
                assert(m[i] == pinned[i]);
                assert(m[j] == np[j - pinned.len()]);
                if email_key(m[i]) == email_key(m[j]) {
                    assert(has_email(pinned, email_key(m[j])));
                }
            } else {
                assert(m[i] == np[i - pinned.len()] && m[j] == np[j - pinned.len()]);
            }
        }
    }
}

/// The people kept by `without_person` are people of the list that are not
/// the user.
pub proof fn lemma_without_person(cs: Seq<Person>, me: Option<Person>)
    ensures
        forall|k: int|
            0 <= k < without_person(cs, me).len() ==> !is_user(me, #[trigger] without_person(cs, me)[k]),
        forall|k: int|
            0 <= k < without_person(cs, me).len() ==> cs.contains(#[trigger] without_person(cs, me)[k]),
    decreases cs.len(),
{
    if cs.len() > 0 {
        let d = cs.drop_last();
        let prev = without_person(d, me);
        lemma_without_person(d, me);
        let w = without_person(cs, me);
        assert forall|k: int| 0 <= k < w.len() implies !is_user(me, #[trigger] w[k]) && cs.contains(w[k]) by {
            if !is_user(me, cs.last()) && k == prev.len() {
                assert(w[k] == cs.last());
                assert(cs[cs.len() - 1] == cs.last());
            } else {
                assert(w[k] == prev[k]);
                assert(d.contains(prev[k]));
                let i = choose|i: int| 0 <= i < d.len() && d[i] == prev[k];
                assert(cs[i] == d[i]);
            }
        }
    }
}

/// Leaving out the user keeps every other contributor, in order: exactly
/// those whose email, lowercased, differs from the user's.
pub proof fn lemma_without_person_keeps_others(cs: Seq<Person>, me: Option<Person>)
    ensures
        without_person(cs, me) == cs.filter(
            |p: Person| me is None || lowercase((me->0).1) != lowercase(p.1),
        ),
    decreases cs.len(),
{
    reveal(Seq::filter);
    let f = |p: Person| me is None || lowercase((me->0).1) != lowercase(p.1);
    if cs.len() == 0 {
        assert(without_person(cs, me) =~= cs.filter(f));
    } else {
        let d = cs.drop_last();
        lemma_without_person_keeps_others(d, me);
        assert(f(cs.last()) == !is_user(me, cs.last()));
        assert(without_person(cs, me) =~= cs.filter(f));
    }
}

/// The candidate list is the pinned authors, in file order, followed by
/// every history contributor, in order, whose email (lowercased) no pinned
/// author has.
pub proof fn lemma_merged_keeps_unpinned(pinned: Seq<Person>, history: Seq<Person>)
    ensures
        merged(pinned, history) == pinned + history.filter(
            |h: Person|
                !exists|j: int| 0 <= j < pinned.len() && lowercase(#[trigger] pinned[j].1) == lowercase(h.1),
        ),
{
    lemma_not_pinned_filter(pinned, history);
}

/// The history contributors that are not pinned, as a filter.
proof fn lemma_not_pinned_filter(pinned: Seq<Person>, history: Seq<Person>)
    ensures
        not_pinned(history, pinned) == history.filter(
            |h: Person|
                !exists|j: int| 0 <= j < pinned.len() && lowercase(#[trigger] pinned[j].1) == lowercase(h.1),
        ),
    decreases history.len(),
{
    reveal(Seq::filter);
    let f = |h: Person|
        !exists|j: int| 0 <= j < pinned.len() && lowercase(#[trigger] pinned[j].1) == lowercase(h.1);
    if history.len() == 0 {
        assert(not_pinned(history, pinned) =~= history.filter(f));
    } else {
        lemma_not_pinned_filter(pinned, history.drop_last());
        let h = history.last();
        assert(f(h) == !has_email(pinned, email_key(h))) by {
            if has_email(pinned, email_key(h)) {
                let k = choose|k: int| 0 <= k < pinned.len() && #[trigger] email_key(pinned[k]) == email_key(h);
                assert(lowercase(pinned[k].1) == lowercase(h.1));
            }
            if !f(h) {
                let j = choose|j: int| 0 <= j < pinned.len() && lowercase(#[trigger] pinned[j].1) == lowercase(h.1);
                assert(email_key(pinned[j]) == email_key(h));
            }
        }
        assert(not_pinned(history, pinned) =~= history.filter(f));
    }
}

/// Walking the history offers no one at first; each further author is
/// offered exactly when it has a name and an email, is not the user (emails
/// compared lowercased), and no earlier author offered on those terms has its
/// email (lowercased); those offered before stay as they were, in order.
pub proof fn lemma_unique_authors_step(authors: Seq<Person>, me: Option<Person>, n: int)
    requires
        0 <= n < authors.len(),
    ensures
        unique_authors(authors.take(0), me) == Seq::<Person>::empty(),
        unique_authors(authors.take(n + 1), me) == if (authors[n].0.len() > 0 && authors[n].1.len() > 0 && (me is None || lowercase((me->0).1) != lowercase(authors[n].1))) && !exists|j: int|
            0 <= j < n && (authors[j].0.len() > 0 && authors[j].1.len() > 0 && (me is None || lowercase((me->0).1) != lowercase(authors[j].1))) && lowercase(#[trigger] authors[j].1) == lowercase(authors[n].1) {
            unique_authors(authors.take(n), me).push(authors[n])
        } else {
            unique_authors(authors.take(n), me)
        },
{
    let t = authors.take(n + 1);
    let d = authors.take(n);
    let a = authors[n];
    assert(t.drop_last() =~= d);
    assert(t.last() == a);
    assert(authors.take(0) =~= Seq::<Person>::empty());
    let u = unique_authors(d, me);
    lemma_unique_contributors(d, me);
    assert((authors[n].0.len() > 0 && authors[n].1.len() > 0 && (me is None || lowercase((me->0).1) != lowercase(authors[n].1))) == eligible(a, me));
    let earlier = exists|j: int|
        0 <= j < n && (authors[j].0.len() > 0 && authors[j].1.len() > 0 && (me is None || lowercase((me->0).1) != lowercase(authors[j].1))) && lowercase(#[trigger] authors[j].1) == lowercase(authors[n].1);
    if earlier {
        let j = choose|j: int|
            0 <= j < n && (authors[j].0.len() > 0 && authors[j].1.len() > 0 && (me is None || lowercase((me->0).1) != lowercase(authors[j].1))) && lowercase(#[trigger] authors[j].1) == lowercase(authors[n].1);
        assert(d[j] == authors[j]);
        assert(eligible(d[j], me));
        assert(has_email(u, email_key(d[j])));
    }
    if has_email(u, email_key(a)) {
        let k = choose|k: int| 0 <= k < u.len() && #[trigger] email_key(u[k]) == email_key(a);
        assert(eligible(u[k], me));
        let i = choose|i: int|
            0 <= i < d.len() && d[i] == #[trigger] u[k] && forall|j: int|
                0 <= j < i && eligible(d[j], me) ==> email_key(#[trigger] d[j]) != email_key(d[i]);
        assert(authors[i] == d[i]);
        assert(lowercase(authors[i].1) == lowercase(authors[n].1));
    }
}

/// The user is never offered as a co-author: neither a pinned author with
/// the user's email nor a history author with it reaches the candidate list.
pub proof fn lemma_user_not_offered(pinned: Seq<Person>, authors: Seq<Person>, me: Option<Person>)
    ensures
        forall|k: int|
            0 <= k < merged(without_person(pinned, me), unique_authors(authors, me)).len()
                ==> !is_user(
                me,
                #[trigger] merged(without_person(pinned, me), unique_authors(authors, me))[k],
            ),
{
    let p = without_person(pinned, me);
    let h = unique_authors(authors, me);
    let m = merged(p, h);
    lemma_without_person(pinned, me);
    lemma_unique_contributors(authors, me);
    lemma_not_pinned(h, p);
    let np = not_pinned(h, p);
    assert forall|k: int| 0 <= k < m.len() implies !is_user(me, #[trigger] m[k]) by {
        if k < p.len() {
            assert(m[k] == p[k]);
        } else {
            assert(m[k] == np[k - p.len()]);
            assert(h.contains(np[k - p.len()]));
            let i = choose|i: int| 0 <= i < h.len() && h[i] == np[k - p.len()];
            assert(eligible(h[i], me));
        }
    }
}

// ---------------------------------------------------------------------------
// Laws of the pinned-authors file
// ---------------------------------------------------------------------------

/// An entry that reads back as written: name and email non-empty, without
/// whitespace at their ends and without line breaks, a name that does not
/// start with `#`, and an email without `<`.
pub open spec fn is_plain_entry(p: Person) -> bool {
    &&& p.0.len() > 0
    &&& p.1.len() > 0
    &&& !is_space(p.0[0])
    &&& !is_space(p.0.last())
    &&& p.0[0] != '#'
    &&& !is_space(p.1[0])
    &&& !is_space(p.1.last())
    &&& forall|k: int| 0 <= k < p.1.len() ==> #[trigger] p.1[k] != '<'
    &&& forall|k: int| 0 <= k < p.0.len() ==> #[trigger] p.0[k] != '\n'
    &&& forall|k: int| 0 <= k < p.1.len() ==> #[trigger] p.1[k] != '\n'
}

/// A plain entry written as `Name <email>` reads back as the same entry.
pub proof fn lemma_entry_round_trip(p: Person)
    requires
        is_plain_entry(p),
    ensures
        parse_author_line(display_text(p)) == Some(p),
{
    reveal_strlit(" <");
    reveal_strlit(">");
    let n = p.0;
    let e = p.1;
    let line = display_text(p);
    let nl = n.len() as int;
    assert(line.len() == nl + 2 + e.len() + 1);
    assert(line[0] == n[0]);
    assert(line[nl] == ' ');
    assert(line[nl + 1] == '<');
    assert(line.last() == '>');
    lemma_trim_unchanged(line);
    let t = trim(line);
    assert(t == line);
    assert forall|k: int| nl + 1 < k < line.len() implies #[trigger] line[k] != '<' by {
        if k < line.len() - 1 {
            assert(line[k] == e[k - nl - 2]);
        }
    }
    lemma_last_index_at(line, '<', nl + 1);
    lemma_last_index_at(line, '>', line.len() - 1);
    let head = line.take(nl + 1);
    assert(head =~= n.push(' '));
    assert(head[0] == n[0]);
    lemma_trim_start_unchanged(head);
    lemma_trim_end_padded(n);
    assert(trim(head) =~= n);
    assert(line.subrange(nl + 2, line.len() - 1) =~= e);
    lemma_trim_unchanged(e);
}

/// Reading the lines of two texts one after the other gives the authors of
/// the first, then those of the second.
pub proof fn lemma_parse_lines_append(x: Seq<Seq<char>>, y: Seq<Seq<char>>)
    ensures
        parse_author_lines(x + y) == parse_author_lines(x) + parse_author_lines(y),
    decreases y.len(),
{
    if y.len() == 0 {
        assert(x + y =~= x);
        assert(parse_author_lines(x) + parse_author_lines(y) =~= parse_author_lines(x));
    } else {
        lemma_parse_lines_append(x, y.drop_last());
        assert((x + y).drop_last() =~= x + y.drop_last());
        assert((x + y).last() == y.last());
        match parse_author_line(y.last()) {
            Some(q) => {
                assert(parse_author_lines(x + y) =~= parse_author_lines(x) + parse_author_lines(
                    y,
                ));
            },
            None => {},
        }
    }
}

/// A line ending added at the end of a text changes none of the authors it
/// lists.
pub proof fn lemma_parse_push_newline(x: Seq<char>)
    ensures
        parse_author_lines(lines(x.push('\n'))) == parse_author_lines(lines(x)),
{
    let e = Seq::<char>::empty();
    if x.len() == 0 || x.last() == '\n' {
        lemma_lines_push_blank(x);
        let ls = lines(x).push(e);
        assert(ls.drop_last() =~= lines(x));
        assert(trim(e) =~= e);
        assert(parse_author_line(e) is None);
    } else {
        lemma_lines_push_close(x);
        let l = lines(x);
        let ls = l.drop_last().push(drop_cr(l.last()));
        assert(ls.drop_last() =~= l.drop_last());
        lemma_trim_drop_cr(l.last());
        assert(parse_author_line(drop_cr(l.last())) == parse_author_line(l.last()));
    }
}

/// Two texts joined by a line ending list the authors of the first, then
/// those of the second: each line is read on its own.
pub proof fn lemma_parse_join(a: Seq<char>, b: Seq<char>)
    ensures
        parse_author_lines(lines(a + "\n"@ + b)) == parse_author_lines(lines(a))
            + parse_author_lines(lines(b)),
{
    reveal_strlit("\n");
    assert(a + "\n"@ + b =~= a.push('\n') + b);
    lemma_lines_append(a.push('\n'), b);
    lemma_parse_lines_append(lines(a.push('\n')), lines(b));
    lemma_parse_push_newline(a);
}

/// A plain entry written as `Name <email>` is a text of one line holding
/// that entry.
proof fn lemma_entry_text(p: Person)
    requires
        is_plain_entry(p),
    ensures
        parse_author_lines(lines(display_text(p))) == seq![p],
{
    reveal_strlit(" <");
    reveal_strlit(">");
    let d = display_text(p);
    let nl = p.0.len() as int;
    assert forall|k: int| 0 <= k < d.len() implies #[trigger] d[k] != '\n' by {
        if k < nl {
            assert(d[k] == p.0[k]);
        } else if nl + 2 <= k < d.len() - 1 {
            assert(d[k] == p.1[k - nl - 2]);
        }
    }
    lemma_line_end_at(d, d.len() as int);
    assert(lines(d) == seq![d]);
    lemma_entry_round_trip(p);
    let ls = seq![d];
    let none = Seq::<Seq<char>>::empty();
    assert(ls.drop_last() =~= none);
    assert(parse_author_lines(none) == Seq::<Person>::empty());
    assert(ls.last() == d);
    assert(parse_author_line(ls.last()) == Some(p));
    assert(Seq::<Person>::empty().push(p) =~= seq![p]);
}

/// Plain entries written as `Name <email>` and joined with line endings read
/// back as the same entries, in order.
pub proof fn lemma_parse_displayed(ps: Seq<Person>)
    requires
        forall|k: int| 0 <= k < ps.len() ==> is_plain_entry(#[trigger] ps[k]),
    ensures
        parse_author_lines(lines(join_lines(ps.map_values(|p: Person| display_text(p))))) == ps,
    decreases ps.len(),
{
    let ds = ps.map_values(|p: Person| display_text(p));
    if ps.len() == 0 {
        assert(join_lines(ds) == Seq::<char>::empty());
        assert(lines(Seq::<char>::empty()) =~= Seq::<Seq<char>>::empty());
        assert(parse_author_lines(Seq::<Seq<char>>::empty()) =~= ps);
    } else {
        let d = ps.drop_last();
        let p = ps.last();
        assert(is_plain_entry(ps[ps.len() - 1]));
        lemma_entry_text(p);
        if d.len() == 0 {
            assert(ds.len() == 1);
            assert(join_lines(ds) == ds[0]);
            assert(ps =~= seq![p]);
        } else {
            assert forall|k: int| 0 <= k < d.len() implies is_plain_entry(#[trigger] d[k]) by {
                assert(d[k] == ps[k]);
            }
            lemma_parse_displayed(d);
            let dd = d.map_values(|p: Person| display_text(p));
            assert(ds.drop_last() =~= dd);
            reveal_strlit("\n");
            assert(join_lines(ds) =~= join_lines(dd) + "\n"@ + display_text(p));
            lemma_parse_join(join_lines(dd), display_text(p));
            assert(d + seq![p] =~= ps);
        }
    }
}

/// Text whose every line starts with `#` lists no author.
pub proof fn lemma_comment_block(a: Seq<char>)
    requires
        a.len() > 0,
        a[0] == '#',
        a.last() == '\n',
        forall|k: int| 0 <= k < a.len() - 1 && #[trigger] a[k] == '\n' ==> a[k + 1] == '#',
    ensures
        parse_author_lines(lines(a)) == Seq::<Person>::empty(),
    decreases a.len(),
{
    lemma_line_end(a);
    let e = line_end(a);
    if e == a.len() {
        assert(a[a.len() - 1] != '\n');
    }
    assert(e > 0);
    let l = drop_cr(a.take(e as int));
    assert(l.len() > 0 && l[0] == '#');
    assert(!is_space('#'));
    lemma_trim_keeps_first(l);
    assert(parse_author_line(l) is None);
    let rest = a.skip((e + 1) as int);
    assert(lines(a) == seq![l] + lines(rest));
    lemma_parse_lines_append(seq![l], lines(rest));
    assert(parse_author_lines(seq![l]) =~= Seq::<Person>::empty()) by {
        let e0 = Seq::<Seq<char>>::empty();
        assert(parse_author_lines(e0) == Seq::<Person>::empty());
        assert(seq![l].drop_last() =~= e0);
        assert(seq![l].last() == l);
    }
    if rest.len() > 0 {
        assert(rest[0] == a[(e + 1) as int]);
        assert(rest.last() == a.last());
        assert forall|k: int| 0 <= k < rest.len() - 1 && #[trigger] rest[k] == '\n' implies rest[k
            + 1] == '#' by {
            assert(rest[k] == a[k + e + 1]);
            assert(rest[k + 1] == a[k + e + 2]);
        }
        lemma_comment_block(rest);
    } else {
        assert(lines(rest) =~= Seq::<Seq<char>>::empty());
    }
    assert(parse_author_lines(lines(a)) =~= Seq::<Person>::empty());
}

/// A new authors file written without a known user lists no author.
pub proof fn lemma_template_lists_nobody()
    ensures
        parse_author_lines(lines(template_text(None))) == Seq::<Person>::empty(),
{
    reveal_strlit("# cac authors — add one author per line in \"Name <email>\" format\n# Lines starting with # are comments and are ignored\n");
    lemma_comment_block(TEMPLATE_INTRO@);
}

/// A new authors file written for a known user lists exactly the user's own
/// example entry, and that entry is filtered out as the user's own, so the
/// file offers no co-author.
pub proof fn lemma_template_entry_filtered(u: Person)
    requires
        is_plain_entry(u),
    ensures
        parse_author_lines(lines(template_text(Some(u)))) == seq![u],
        without_person(parse_author_lines(lines(template_text(Some(u)))), Some(u))
            == Seq::<Person>::empty(),
{
    reveal_strlit("# cac authors — add one author per line in \"Name <email>\" format\n# Lines starting with # are comments and are ignored\n");
    reveal_strlit("# Your own entry below is just a format example — it is filtered out automatically\n");
    reveal_strlit("\n");
    reveal_strlit(" <");
    reveal_strlit(">");
    let a = TEMPLATE_INTRO@ + TEMPLATE_EXAMPLE_NOTE@;
    let d = display_text(u);
    assert forall|k: int| 0 <= k < a.len() - 1 && #[trigger] a[k] == '\n' implies a[k + 1] == '#' by {
        if k < TEMPLATE_INTRO@.len() {
            assert(a[k] == TEMPLATE_INTRO@[k]);
        } else {
            assert(a[k] == TEMPLATE_EXAMPLE_NOTE@[k - TEMPLATE_INTRO@.len()]);
        }
    }
    lemma_comment_block(a);
    assert(template_text(Some(u)) =~= a + d.push('\n'));
    lemma_lines_append(a, d.push('\n'));
    let nl = u.0.len() as int;
    assert forall|k: int| 0 <= k < d.len() implies #[trigger] d[k] != '\n' by {
        if k < nl {
            assert(d[k] == u.0[k]);
        } else if nl + 2 <= k < d.len() - 1 {
            assert(d[k] == u.1[k - nl - 2]);
        }
    }
    lemma_lines_single(d);
    lemma_entry_round_trip(u);
    lemma_parse_lines_append(lines(a), seq![d]);
    assert(parse_author_lines(seq![d]) =~= seq![u]) by {
        let e0 = Seq::<Seq<char>>::empty();
        assert(parse_author_lines(e0) == Seq::<Person>::empty());
        assert(seq![d].drop_last() =~= e0);
        assert(seq![d].last() == d);
        assert(Seq::<Person>::empty().push(u) =~= seq![u]);
    }
    assert(parse_author_lines(lines(template_text(Some(u)))) =~= seq![u]);
    assert(without_person(seq![u], Some(u)) =~= Seq::<Person>::empty()) by {
        let e0 = Seq::<Person>::empty();
        assert(without_person(e0, Some(u)) == e0);
        assert(seq![u].drop_last() =~= e0);
        assert(seq![u].last() == u);
        assert(is_user(Some(u), u));
    }
}

// ---------------------------------------------------------------------------
// Amending twice
// ---------------------------------------------------------------------------

/// The trailer line an amend writes for one co-author.
pub open spec fn trailer_line(p: Person) -> Seq<char> {
    "Co-authored-by: "@ + p.0 + " <"@ + p.1 + ">"@
}

/// The trailer lines an amend writes for `cs`, in order.
pub open spec fn trailer_lines(cs: Seq<Person>) -> Seq<Seq<char>> {
    Seq::new(cs.len(), |k: int| trailer_line(cs[k]))
}

/// Dropping the trailers of two runs of lines one after the other drops
/// those of each run.
pub proof fn lemma_non_trailers_append(a: Seq<Seq<char>>, b: Seq<Seq<char>>)
    ensures
        non_trailers(a + b) == non_trailers(a) + non_trailers(b),
    decreases b.len(),
{
    if b.len() == 0 {
        assert(a + b =~= a);
        assert(non_trailers(a) + non_trailers(b) =~= non_trailers(a));
    } else {
        let d = b.drop_last();
        lemma_non_trailers_append(a, d);
        assert((a + b).drop_last() =~= a + d);
        assert((a + b).last() == b.last());
        if !is_trailer(b.last()) {
            assert(non_trailers(a) + non_trailers(d).push(b.last()) =~= (non_trailers(a)
                + non_trailers(d)).push(b.last()));
        }
    }
}

/// Each line kept by `non_trailers` is one of the given lines, and no trailer.
pub proof fn lemma_non_trailers_of(ls: Seq<Seq<char>>)
    ensures
        forall|k: int|
            0 <= k < non_trailers(ls).len() ==> !is_trailer(#[trigger] non_trailers(ls)[k])
                && exists|j: int| 0 <= j < ls.len() && non_trailers(ls)[k] == #[trigger] ls[j],
    decreases ls.len(),
{
    if ls.len() > 0 {
        let d = ls.drop_last();
        lemma_non_trailers_of(d);
        let n = non_trailers(ls);
        assert forall|k: int| 0 <= k < n.len() implies !is_trailer(#[trigger] n[k]) && exists|
            j: int,
        | 0 <= j < ls.len() && n[k] == #[trigger] ls[j] by {
            if k < non_trailers(d).len() {
                assert(n[k] == non_trailers(d)[k]);
                let j = choose|j: int| 0 <= j < d.len() && non_trailers(d)[k] == #[trigger] d[j];
                assert(ls[j] == d[j]);
            } else {
                assert(n[k] == ls[ls.len() - 1]);
            }
        }
    }
}

/// Lines of which none is a trailer are all kept.
pub proof fn lemma_non_trailers_keep(ls: Seq<Seq<char>>)
    requires
        forall|k: int| 0 <= k < ls.len() ==> !is_trailer(#[trigger] ls[k]),
    ensures
        non_trailers(ls) == ls,
    decreases ls.len(),
{
    if ls.len() > 0 {
        let d = ls.drop_last();
        assert forall|k: int| 0 <= k < d.len() implies !is_trailer(#[trigger] d[k]) by {
            assert(d[k] == ls[k]);
        }
        lemma_non_trailers_keep(d);
        assert(!is_trailer(ls[ls.len() - 1]));
        assert(d.push(ls.last()) =~= ls);
    }
}

/// Lines that are all trailers are all dropped.
pub proof fn lemma_non_trailers_drop(ls: Seq<Seq<char>>)
    requires
        forall|k: int| 0 <= k < ls.len() ==> is_trailer(#[trigger] ls[k]),
    ensures
        non_trailers(ls) == Seq::<Seq<char>>::empty(),
    decreases ls.len(),
{
    if ls.len() > 0 {
        let d = ls.drop_last();
        assert forall|k: int| 0 <= k < d.len() implies is_trailer(#[trigger] d[k]) by {
            assert(d[k] == ls[k]);
        }
        lemma_non_trailers_drop(d);
        assert(is_trailer(ls[ls.len() - 1]));
    }
}

/// A trailer line holds no line break when the name and email hold none, and
/// it ends with `>`.
pub proof fn lemma_trailer_line_shape(p: Person)
    requires
        lacks(p.0, '\n'),
        lacks(p.1, '\n'),
    ensures
        lacks(trailer_line(p), '\n'),
        !ends_with_cr(trailer_line(p)),
{
    reveal_strlit("Co-authored-by: ");
    reveal_strlit(" <");
    reveal_strlit(">");
    let a = "Co-authored-by: "@;
    let b = " <"@;
    let c = ">"@;
    assert(lacks(a, '\n'));
    assert(lacks(b, '\n'));
    assert(lacks(c, '\n'));
    lemma_lacks_concat(a, p.0, '\n');
    lemma_lacks_concat(a + p.0, b, '\n');
    lemma_lacks_concat(a + p.0 + b, p.1, '\n');
    lemma_lacks_concat(a + p.0 + b + p.1, c, '\n');
    assert(trailer_line(p).last() == '>');
}

/// The pieces of a kept text, a line break and a trailer block: the pieces of
/// the text, an empty line, and one trailer line per co-author.
pub proof fn lemma_block_pieces(t: Seq<char>, cs: Seq<Person>)
    requires
        forall|k: int|
            #![trigger cs[k]]
            0 <= k < cs.len() ==> lacks(cs[k].0, '\n') && lacks(cs[k].1, '\n'),
    ensures
        pieces(t + "\n"@ + trailer_block(cs)) == pieces(t).push(Seq::<char>::empty())
            + trailer_lines(cs),
    decreases cs.len(),
{
    reveal_strlit("\n");
    let e = Seq::<char>::empty();
    if cs.len() == 0 {
        assert(t + "\n"@ + trailer_block(cs) =~= t + seq!['\n'] + e);
        assert(lacks(e, '\n'));
        lemma_pieces_push(t, e);
        assert(pieces(t).push(e) + trailer_lines(cs) =~= pieces(t).push(e));
    } else {
        let d = cs.drop_last();
        assert forall|k: int| #![trigger d[k]] 0 <= k < d.len() implies lacks(d[k].0, '\n')
            && lacks(d[k].1, '\n') by {
            assert(d[k] == cs[k]);
        }
        lemma_block_pieces(t, d);
        reveal_strlit("\nCo-authored-by: ");
        reveal_strlit("Co-authored-by: ");
        let p = cs.last();
        assert(p == cs[cs.len() - 1]);
        let tl = trailer_line(p);
        lemma_trailer_line_shape(p);
        let head = t + "\n"@ + trailer_block(d);
        assert("\nCo-authored-by: "@ =~= seq!['\n'] + "Co-authored-by: "@);
        assert(t + "\n"@ + trailer_block(cs) =~= head + seq!['\n'] + tl);
        lemma_pieces_push(head, tl);
        assert(trailer_lines(cs) =~= trailer_lines(d).push(tl));
        assert(pieces(t).push(e) + trailer_lines(cs) =~= (pieces(t).push(e) + trailer_lines(
            d,
        )).push(tl));
    }
}

/// Whether the first characters of `line` after its leading whitespace, as
/// many as the trailer key has (or all, when fewer), are ASCII.
pub open spec fn ascii_lead(line: Seq<char>) -> bool {
    let u = trim_start(line);
    let n = TRAILER_KEY@.len() as int;
    is_ascii(if u.len() < n { u } else { u.take(n) })
}

/// The empty line is no trailer.
pub proof fn lemma_empty_not_trailer()
    requires
        lowercase_keeps_ascii(),
    ensures
        !is_trailer(Seq::<char>::empty()),
{
    reveal_strlit("co-authored-by:");
    let e = Seq::<char>::empty();
    assert(is_ascii(e));
    assert(lowercase(e) == ascii_lower(e));
    assert(ascii_lower(e) =~= e);
    assert(trim_start(e) =~= e);
}

/// Each trailer line an amend writes is a trailer.
pub proof fn lemma_trailer_line_is_trailer(p: Person)
    requires
        lowercase_keeps_ascii(),
    ensures
        is_trailer(trailer_line(p)),
{
    reveal_strlit("Co-authored-by: ");
    reveal_strlit(" <");
    reveal_strlit(">");
    reveal_strlit("co-authored-by:");
    let tl = trailer_line(p);
    let h = "Co-authored-by: "@;
    assert(tl[0] == 'C');
    assert(!is_space('C'));
    lemma_trim_start_unchanged(tl);
    assert(tl.take(16) =~= h);
    assert(is_ascii(h));
    assert(is_ascii(tl.take(16)));
    assert(lowercase(tl).take(16) == ascii_lower(tl.take(16)));
    let lo = lowercase(tl);
    assert(lo.take(15) =~= TRAILER_KEY@) by {
        assert forall|k: int| 0 <= k < 15 implies #[trigger] lo.take(15)[k] == TRAILER_KEY@[k] by {
            assert(lo.take(15)[k] == lo.take(16)[k]);
            assert(lo.take(16)[k] == ascii_lower_char(h[k]));
        }
    }
}

/// A line that is no trailer and begins, after its leading whitespace, with
/// ASCII characters stays no trailer when trimmed at the end.
pub proof fn lemma_trim_end_not_trailer(l: Seq<char>)
    requires
        lowercase_keeps_ascii(),
        ascii_lead(l),
        !is_trailer(l),
    ensures
        !is_trailer(trim_end(l)),
{
    reveal_strlit("co-authored-by:");
    let u = trim_start(l);
    let w = trim_start(trim_end(l));
    lemma_trim_start_end(l);
    let key = TRAILER_KEY@;
    assert(key.len() == 15);
    if is_trailer(trim_end(l)) {
        let lw = lowercase(w);
        assert(lw.take(15) == key);
        if w.len() < 15 {
            assert(is_ascii(w)) by {
                assert forall|k: int| 0 <= k < w.len() implies (#[trigger] w[k] as u32) < 128 by {
                    assert(w[k] == u[k]);
                    if u.len() >= 15 {
                        assert(u.take(15)[k] == u[k]);
                    }
                }
            }
            assert(lw == ascii_lower(w));
            assert(false);
        } else {
            let a = u.take(15);
            assert(is_ascii(a));
            assert(w.take(15) =~= a);
            assert(is_ascii(w.take(15)));
            assert(lowercase(w).take(15) == ascii_lower(w.take(15)));
            assert(is_ascii(u.take(15)));
            assert(lowercase(u).take(15) == ascii_lower(u.take(15)));
            assert(is_trailer(l));
        }
    }
}

/// Amending a commit again with the same co-authors leaves the message as
/// the first amend wrote it: the trailers are replaced, never repeated.
///
/// This holds when no co-author's name or email holds a line break, and when
/// no line of the kept text ends with `'\r'` (it would be read back as part
/// of a line ending). Lowercasing enters through the facts `to_lowercase`
/// states of ASCII text, and, for a line of the message that is no trailer
/// and does not begin with ASCII characters after its leading whitespace,
/// through the premise that it stays no trailer when trimmed at the end.
pub proof fn lemma_amend_twice(m: Seq<char>, cs: Seq<Person>)
    requires
        forall|k: int|
            #![trigger cs[k]]
            0 <= k < cs.len() ==> lacks(cs[k].0, '\n') && lacks(cs[k].1, '\n'),
        forall|k: int|
            0 <= k < pieces(kept_text(m)).len() ==> !ends_with_cr(
                #[trigger] pieces(kept_text(m))[k],
            ),
        lowercase_keeps_ascii(),
        forall|k: int|
            0 <= k < lines(m).len() && !is_trailer(#[trigger] lines(m)[k]) && !ascii_lead(
                lines(m)[k],
            ) ==> !is_trailer(trim_end(lines(m)[k])),
    ensures
        amended_text(amended_text(m, cs), cs) == amended_text(m, cs),
{
    reveal_strlit("\n");
    lemma_empty_not_trailer();
    assert forall|k: int| 0 <= k < cs.len() implies is_trailer(#[trigger] trailer_line(cs[k])) by {
        lemma_trailer_line_is_trailer(cs[k]);
    }
    let e = Seq::<char>::empty();
    let ls = lines(m);
    let kk = non_trailers(ls);
    let j = join_lines(kk);
    let t = trim_end(j);
    assert(t == kept_text(m));
    lemma_lines_chars(m);
    lemma_non_trailers_of(ls);
    let pj = pieces(j);
    assert forall|q: int| 0 <= q < pj.len() implies !is_trailer(#[trigger] pj[q]) && !is_trailer(
        trim_end(pj[q]),
    ) by {
        if kk.len() == 0 {
            assert(j == e);
            assert(pj == seq![e]);
            assert(trim_end(e) =~= e);
        } else {
            assert forall|k: int| 0 <= k < kk.len() implies lacks(#[trigger] kk[k], '\n') by {
                let w = choose|w: int| 0 <= w < ls.len() && kk[k] == #[trigger] ls[w];
            }
            lemma_pieces_join(kk);
            let w = choose|w: int| 0 <= w < ls.len() && kk[q] == #[trigger] ls[w];
            assert(pj[q] == ls[w]);
            if ascii_lead(ls[w]) {
                lemma_trim_end_not_trailer(ls[w]);
            }
        }
    }
    lemma_pieces_trim_end(j);
    let pt = pieces(t);
    assert forall|k: int| 0 <= k < pt.len() implies !is_trailer(#[trigger] pt[k]) by {
        assert(from_pieces(pt[k], pj));
        let i = choose|i: int| 0 <= i < pj.len() && (pt[k] == #[trigger] pj[i] || pt[k]
            == trim_end(pj[i]));
    }
    let tls = trailer_lines(cs);
    let x = t + "\n"@ + trailer_block(cs);
    lemma_block_pieces(t, cs);
    let px = pieces(x);
    assert(px == pt.push(e) + tls);
    assert forall|k: int| 0 <= k < px.len() implies !ends_with_cr(#[trigger] px[k]) by {
        if k < pt.len() {
            assert(px[k] == pt[k]);
        } else if k == pt.len() {
            assert(px[k] == e);
        } else {
            let i = k - pt.len() - 1;
            assert(px[k] == tls[i]);
            assert(cs[i] == cs[i]);
            lemma_trailer_line_shape(cs[i]);
        }
    }
    lemma_pieces_lines(x);
    let m1 = amended_text(m, cs);
    assert(m1 =~= x.push('\n'));
    assert(lines(m1) == pt.push(e) + tls);
    assert(pt.push(e) =~= pt + seq![e]);
    lemma_non_trailers_append(pt.push(e), tls);
    lemma_non_trailers_append(pt, seq![e]);
    lemma_non_trailers_keep(pt);
    assert(non_trailers(seq![e]) =~= seq![e]) by {
        let none = Seq::<Seq<char>>::empty();
        assert(seq![e].drop_last() =~= none);
        assert(non_trailers(none) == none);
        assert(seq![e].last() == e);
        assert(none.push(e) =~= seq![e]);
    }
    assert forall|k: int| 0 <= k < tls.len() implies is_trailer(#[trigger] tls[k]) by {
        assert(tls[k] == trailer_line(cs[k]));
    }
    lemma_non_trailers_drop(tls);
    assert(non_trailers(lines(m1)) =~= pt.push(e));
    lemma_pieces_len(t);
    lemma_join_pieces(t);
    assert(pt.push(e).drop_last() =~= pt);
    assert(stripped(m1) =~= t.push('\n'));
    lemma_trim_end_newline(t);
    lemma_trim_end_twice(j);
    assert(kept_text(m1) == t);
}

} // verus!
