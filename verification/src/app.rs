//! The state of the co-author picker: the candidate list, the search, which
//! candidates are shown and selected, and the cursor, with the rules every
//! key press follows.
use vstd::prelude::*;
use crate::git::{display_text, people, Contributor};
use crate::search::{fuzzy_score, is_ranking, lemma_ranked, rank_matches, ranked, ranks_before, skim_score};
use crate::order::{
    all_indices, contains_index, index_range, indices_below, lemma_members_of, lemma_outside_of,
    lemma_outside_everything, lemma_pinned_order, lemma_pinned_order_settled, lemma_toggled,
    lemma_toggled_keeps_order, lemma_pinned_order_shape,
    members_of, outside_of, pinned_order, position_of, toggled,
};
use crate::text::{pop_char, push_char};

verus! {

broadcast use vstd::string::group_string_axioms;

/// The picker's state.
pub struct App {
    /// Every candidate co-author.
    pub contributors: Vec<Contributor>,
    /// Indices into `contributors` of the candidates shown, in display order.
    pub filtered: Vec<usize>,
    /// Indices into `contributors` of the selected candidates, in the order
    /// they were selected.
    pub selected: Vec<usize>,
    /// Position in `filtered` of the highlighted row.
    pub cursor: usize,
    /// The search text.
    pub search: String,
    /// The message of the commit being amended.
    pub commit_msg: String,
    /// The id of the commit being amended (its 20 bytes).
    pub commit_id: [u8; 20],
    /// Set when the user cancels.
    pub should_quit: bool,
    /// Set when the user confirms.
    pub confirmed: bool,
}

// ---------------------------------------------------------------------------
// Search results
// ---------------------------------------------------------------------------

/// The skim score of each candidate, as `Name <email>`, against `search`.
pub open spec fn match_scores(cs: Seq<Contributor>, search: Seq<char>) -> Seq<Option<i64>> {
    Seq::new(cs.len(), |i: int| skim_score(display_text(cs[i]@), search))
}

/// The candidates a search shows, before the selected ones are pinned: all of
/// them in list order for an empty search, else those that match, best score
/// first and equal scores in list order.
pub open spec fn search_results(cs: Seq<Contributor>, search: Seq<char>) -> Seq<usize> {
    if search.len() == 0 {
        all_indices(cs.len())
    } else {
        ranked(match_scores(cs, search))
    }
}

/// The cursor kept within a list of length `n`.
pub open spec fn clamped(cursor: usize, n: nat) -> usize {
    if n == 0 {
        0
    } else if cursor >= n {
        (n - 1) as usize
    } else {
        cursor
    }
}

/// What a new search does to the shown list and the cursor.
pub open spec fn filter_step(
    cs: Seq<Contributor>,
    search: Seq<char>,
    selected: Seq<usize>,
    cursor: usize,
) -> (Seq<usize>, usize) {
    let base = search_results(cs, search);
    (pinned_order(base, selected), clamped(cursor, base.len()))
}

/// What toggling the highlighted candidate does to the shown list, the
/// selection and the cursor: the selection is toggled, the selected
/// candidates are pinned on top again, and the cursor follows the toggled
/// candidate. With no highlighted candidate nothing changes.
pub open spec fn toggle_step(filtered: Seq<usize>, selected: Seq<usize>, cursor: usize) -> (
    Seq<usize>,
    Seq<usize>,
    usize,
) {
    if cursor < filtered.len() {
        let idx = filtered[cursor as int];
        let s = toggled(selected, idx);
        let f = pinned_order(filtered, s);
        (f, s, position_of(f, idx))
    } else {
        (filtered, selected, cursor)
    }
}

/// A search shows exactly the candidates whose `Name <email>` it matches,
/// name and email alike, and every candidate when it is empty, whoever is
/// selected.
pub proof fn lemma_filter_shows(
    cs: Seq<Contributor>,
    search: Seq<char>,
    selected: Seq<usize>,
    cursor: usize,
)
    requires
        cs.len() <= usize::MAX,
        selected.no_duplicates(),
    ensures
        forall|i: usize| #[trigger] filter_step(cs, search, selected, cursor).0.contains(i) <==> (i
            < cs.len() && (search.len() == 0 || skim_score(
            cs[i as int].name@ + " <"@ + cs[i as int].email@ + ">"@,
            search,
        ) is Some)),
{
    let base = search_results(cs, search);
    let sc = match_scores(cs, search);
    if search.len() == 0 {
        let all = all_indices(cs.len());
        assert(all.no_duplicates()) by {
            assert forall|a: int, b: int| 0 <= a < all.len() && 0 <= b < all.len() && a != b implies all[a]
                != all[b] by {}
        }
        assert forall|i: usize| #[trigger] all.contains(i) <==> i < cs.len() by {
            if i < cs.len() {
                assert(all[i as int] == i);
            }
        }
    } else {
        lemma_ranked(sc);
        assert forall|i: usize| #[trigger] base.contains(i) <==> (i < cs.len() && skim_score(
            cs[i as int].name@ + " <"@ + cs[i as int].email@ + ">"@,
            search,
        ) is Some) by {
            if base.contains(i) {
                let k = choose|k: int| 0 <= k < base.len() && base[k] == i;
                assert(base[k] < cs.len());
            }
            if i < cs.len() {
                assert(sc[i as int] == skim_score(display_text(cs[i as int]@), search));
                if sc[i as int] is Some {
                    assert(base.contains((i as int) as usize));
                }
            }
        }
    }
    lemma_pinned_order(base, selected);
}

/// How a search orders what it shows: the selected candidates first, in the
/// order they were selected; then the others, in list order for an empty
/// search, else best skim score of `Name <email>` first and, of equal
/// scores, in list order.
pub proof fn lemma_filter_order(
    cs: Seq<Contributor>,
    search: Seq<char>,
    selected: Seq<usize>,
    cursor: usize,
)
    requires
        cs.len() <= usize::MAX,
        selected.no_duplicates(),
    ensures
        forall|a: int, b: int|
            0 <= a < b < filter_step(cs, search, selected, cursor).0.len() && selected.contains(
                #[trigger] filter_step(cs, search, selected, cursor).0[b],
            ) ==> selected.contains(#[trigger] filter_step(cs, search, selected, cursor).0[a]),
        forall|a: int, b: int, i: int, j: int|
            0 <= a < b < filter_step(cs, search, selected, cursor).0.len() && 0 <= i < selected.len()
                && 0 <= j < selected.len() && #[trigger] selected[i] == #[trigger] filter_step(
                cs,
                search,
                selected,
                cursor,
            ).0[a] && #[trigger] selected[j] == #[trigger] filter_step(cs, search, selected, cursor).0[b]
                ==> i < j,
        forall|a: int, b: int|
            0 <= a < b < filter_step(cs, search, selected, cursor).0.len() && !selected.contains(
                #[trigger] filter_step(cs, search, selected, cursor).0[a],
            ) && !selected.contains(#[trigger] filter_step(cs, search, selected, cursor).0[b]) ==> {
                let x = filter_step(cs, search, selected, cursor).0[a];
                let y = filter_step(cs, search, selected, cursor).0[b];
                if search.len() == 0 {
                    x < y
                } else {
                    skim_score(cs[x as int].name@ + " <"@ + cs[x as int].email@ + ">"@, search)->0 > skim_score(cs[y as int].name@ + " <"@ + cs[y as int].email@ + ">"@, search)->0 || (skim_score(cs[x as int].name@ + " <"@ + cs[x as int].email@ + ">"@, search)->0 == skim_score(cs[y as int].name@ + " <"@ + cs[y as int].email@ + ">"@, search)->0 && x < y)
                }
            },
{
    let base = search_results(cs, search);
    let sc = match_scores(cs, search);
    let f = filter_step(cs, search, selected, cursor).0;
    if search.len() == 0 {
        let all = all_indices(cs.len());
        assert forall|a: int, b: int| 0 <= a < all.len() && 0 <= b < all.len() && a != b implies all[a]
            != all[b] by {}
    } else {
        lemma_ranked(sc);
    }
    lemma_pinned_order(base, selected);
    lemma_pinned_order_shape(base, selected);
    assert forall|a: int, b: int|
        0 <= a < b < f.len() && !selected.contains(#[trigger] f[a]) && !selected.contains(
            #[trigger] f[b],
        ) implies {
        let x = f[a];
        let y = f[b];
        if search.len() == 0 {
            x < y
        } else {
            skim_score(cs[x as int].name@ + " <"@ + cs[x as int].email@ + ">"@, search)->0 > skim_score(cs[y as int].name@ + " <"@ + cs[y as int].email@ + ">"@, search)->0 || (skim_score(cs[x as int].name@ + " <"@ + cs[x as int].email@ + ">"@, search)->0 == skim_score(cs[y as int].name@ + " <"@ + cs[y as int].email@ + ">"@, search)->0 && x < y)
        }
    } by {
        let x = f[a];
        let y = f[b];
        assert(f.contains(x) && f.contains(y));
        assert(base.contains(x) && base.contains(y));
        let i = choose|i: int| 0 <= i < base.len() && base[i] == x;
        let j = choose|j: int| 0 <= j < base.len() && base[j] == y;
        assert(base[i] == f[a] && base[j] == f[b]);
        assert(i < j);
        if search.len() != 0 {
            assert(ranks_before(sc, base[i], base[j]));
            assert(sc[x as int] == skim_score(display_text(cs[x as int]@), search));
            assert(sc[y as int] == skim_score(display_text(cs[y as int]@), search));
        }
    }
}

// ---------------------------------------------------------------------------
// Keys
// ---------------------------------------------------------------------------

/// A key press, as the picker tells them apart.
#[derive(Debug, Clone, Copy, PartialEq, Eq, Structural)]
pub enum Key {
    Esc,
    Enter,
    Tab,
    Up,
    Down,
    Backspace,
    /// A character key; `ctrl` tells whether Control was held.
    Char { ch: char, ctrl: bool },
    /// Any other key.
    Other,
}

/// Whether `key` cancels the picker: Esc or Control-C.
pub open spec fn cancels(key: Key) -> bool {
    ||| key is Esc
    ||| (key matches Key::Char { ch, ctrl } && ch == 'c' && ctrl)
}

/// Whether `key` ends the picker: it cancels or confirms.
pub open spec fn ends(key: Key) -> bool {
    cancels(key) || key is Enter
}

/// The character `key` types into the search, if any.
pub open spec fn typed(key: Key) -> Option<char> {
    match key {
        Key::Char { ch, ctrl } => if ch == 'c' && ctrl {
            None
        } else {
            Some(ch)
        },
        _ => None,
    }
}

/// The search after Backspace: its last character removed, if any.
pub open spec fn without_last(search: Seq<char>) -> Seq<char> {
    if search.len() > 0 {
        search.drop_last()
    } else {
        search
    }
}

impl App {
    /// The shown and selected candidates are valid indices, each listed once.
    pub open spec fn lists_ok(&self) -> bool {
        &&& indices_below(self.filtered@, self.contributors.len() as nat)
        &&& self.filtered@.no_duplicates()
        &&& indices_below(self.selected@, self.contributors.len() as nat)
        &&& self.selected@.no_duplicates()
    }

    /// The state's invariant: the lists are valid and the cursor is on a
    /// shown row (or 0 when none is).
    pub open spec fn wf(&self) -> bool {
        &&& self.lists_ok()
        &&& if self.filtered.len() == 0 {
            self.cursor == 0
        } else {
            self.cursor < self.filtered.len()
        }
    }

    /// Whether the shown list has the selected candidates pinned on top.
    pub open spec fn selected_on_top(&self) -> bool {
        self.filtered@ == pinned_order(self.filtered@, self.selected@)
    }

    /// A picker over `contributors` for the commit `commit_id` with message
    /// `commit_msg`: every candidate shown in list order, none selected, the
    /// cursor on the first row, an empty search.
    pub fn new(contributors: Vec<Contributor>, commit_msg: String, commit_id: [u8; 20]) -> (app:
        Self)
        ensures
            app.wf(),
            app.selected_on_top(),
            app.contributors@ == contributors@,
            app.filtered@ == all_indices(contributors.len() as nat),
            app.filtered@ == pinned_order(all_indices(contributors.len() as nat), seq![]),
            app.selected@ == Seq::<usize>::empty(),
            app.cursor == 0,
            app.search@ == Seq::<char>::empty(),
            app.commit_msg@ == commit_msg@,
            app.commit_id == commit_id,
            !app.should_quit,
            !app.confirmed,
    {
        let filtered = index_range(contributors.len());
        let mut app = App {
            contributors,
            filtered,
            selected: Vec::new(),
            cursor: 0,
            search: String::new(),
            commit_msg,
            commit_id,
            should_quit: false,
            confirmed: false,
        };
        proof {
            let all = all_indices(app.contributors.len() as nat);
            lemma_outside_of(all, seq![]);
            lemma_members_of(seq![], all);
            assert(outside_of(all, seq![]) =~= all) by {
                lemma_outside_everything(all);
            }
            assert(members_of(seq![], all) =~= Seq::<usize>::empty());
        }
        app.sort_filtered();
        proof {
            let all = all_indices(app.contributors.len() as nat);
            assert(pinned_order(all, seq![]) =~= all);
        }
        app
    }

    /// Reorders the shown list to pin the selected candidates on top, in
    /// the order they were selected, followed by the other shown candidates.
    /// The result is already in that order, so a second call changes nothing.
    pub fn sort_filtered(&mut self)
        requires
            old(self).filtered@.no_duplicates(),
            old(self).selected@.no_duplicates(),
        ensures
            final(self).filtered@ == pinned_order(old(self).filtered@, old(self).selected@),
            final(self).selected_on_top(),
            final(self).filtered@.no_duplicates(),
            final(self).contributors == old(self).contributors,
            final(self).selected == old(self).selected,
            final(self).cursor == old(self).cursor,
            final(self).search == old(self).search,
            final(self).commit_msg == old(self).commit_msg,
            final(self).commit_id == old(self).commit_id,
            final(self).should_quit == old(self).should_quit,
            final(self).confirmed == old(self).confirmed,
    {
        let mut out: Vec<usize> = Vec::new();
        let mut k: usize = 0;
        while k < self.selected.len()
            invariant
                k <= self.selected.len(),
                out@ == members_of(self.selected@.take(k as int), self.filtered@),
            decreases self.selected.len() - k,
        {
            proof {
                assert(self.selected@.take(k + 1).drop_last() =~= self.selected@.take(k as int));
            }
            let s = self.selected[k];
            if contains_index(&self.filtered, s) {
                out.push(s);
            }
            k += 1;
        }
        proof {
            assert(self.selected@.take(self.selected.len() as int) =~= self.selected@);
        }
        let ghost head = out@;
        let mut k: usize = 0;
        while k < self.filtered.len()
            invariant
                k <= self.filtered.len(),
                out@ == head + outside_of(self.filtered@.take(k as int), self.selected@),
            decreases self.filtered.len() - k,
        {
            proof {
                assert(self.filtered@.take(k + 1).drop_last() =~= self.filtered@.take(k as int));
            }
            let f = self.filtered[k];
            if !contains_index(&self.selected, f) {
                out.push(f);
            }
            k += 1;
        }
        proof {
            assert(self.filtered@.take(self.filtered.len() as int) =~= self.filtered@);
            lemma_pinned_order_settled(self.filtered@, self.selected@);
            lemma_pinned_order(self.filtered@, self.selected@);
        }
        self.filtered = out;
    }

    /// Recomputes the shown list from the search: all candidates for an empty
    /// search, else those whose `Name <email>` the search matches, best match
    /// first; the cursor is kept within the list and the selected candidates
    /// are pinned on top.
    pub fn filter(&mut self)
        requires
            indices_below(old(self).selected@, old(self).contributors.len() as nat),
            old(self).selected@.no_duplicates(),
        ensures
            final(self).wf(),
            final(self).selected_on_top(),
            (final(self).filtered@, final(self).cursor) == filter_step(
                old(self).contributors@,
                old(self).search@,
                old(self).selected@,
                old(self).cursor,
            ),
            forall|i: usize| #[trigger] final(self).filtered@.contains(i) <==> (i < old(self).contributors.len()
                && (old(self).search@.len() == 0 || match_scores(
                    old(self).contributors@,
                    old(self).search@,
                )[i as int] is Some)),
            forall|i: usize| #[trigger] final(self).filtered@.contains(i) <==> (i < old(self).contributors.len()
                && (old(self).search@.len() == 0 || skim_score(
                    old(self).contributors@[i as int].name@ + " <"@ + old(self).contributors@[i as int].email@
                        + ">"@,
                    old(self).search@,
                ) is Some)),
            final(self).contributors == old(self).contributors,
            final(self).selected == old(self).selected,
            final(self).search == old(self).search,
            final(self).commit_msg == old(self).commit_msg,
            final(self).commit_id == old(self).commit_id,
            final(self).should_quit == old(self).should_quit,
            final(self).confirmed == old(self).confirmed,
    {
        let ghost base = search_results(self.contributors@, self.search@);
        if self.search.as_str().is_empty() {
            self.filtered = index_range(self.contributors.len());
        } else {
            let mut scores: Vec<Option<i64>> = Vec::new();
            let mut i: usize = 0;
            while i < self.contributors.len()
                invariant
                    i <= self.contributors.len(),
                    scores@ =~= match_scores(self.contributors@, self.search@).take(i as int),
                decreases self.contributors.len() - i,
            {
                let shown = self.contributors[i].display();
                scores.push(fuzzy_score(shown.as_str(), self.search.as_str()));
                i += 1;
            }
            proof {
                assert(scores@ =~= match_scores(self.contributors@, self.search@));
            }
            self.filtered = rank_matches(&scores);
        }
        proof {
            assert(self.filtered@ == base);
            assert(self.filtered@.no_duplicates());
            assert(indices_below(self.filtered@, self.contributors.len() as nat));
            let sc = match_scores(self.contributors@, self.search@);
            assert forall|i: usize| #[trigger] base.contains(i) <==> (i < self.contributors.len()
                && (self.search@.len() == 0 || sc[i as int] is Some)) by {
                if base.contains(i) {
                    let k = choose|k: int| 0 <= k < base.len() && base[k] == i;
                    assert(base[k] < self.contributors.len());
                }
                if i < self.contributors.len() && (self.search@.len() == 0 || sc[i as int]
                    is Some) {
                    if self.search@.len() == 0 {
                        assert(base[i as int] == i);
                    } else {
                        assert(is_ranking(base, sc));
                        assert(base.contains((i as int) as usize));
                    }
                }
            }
        }
        if self.filtered.len() == 0 {
            self.cursor = 0;
        } else if self.cursor >= self.filtered.len() {
            self.cursor = self.filtered.len() - 1;
        }
        self.sort_filtered();
        proof {
            lemma_pinned_order(base, self.selected@);
            lemma_pinned_order_settled(base, self.selected@);
            let p = self.filtered@;
            assert forall|k: int| 0 <= k < p.len() implies #[trigger] p[k]
                < self.contributors.len() by {
                assert(p.contains(p[k]));
                assert(base.contains(p[k]));
                let j = choose|j: int| 0 <= j < base.len() && base[j] == p[k];
                assert(base[j] < self.contributors.len());
            }
            lemma_filter_shows(
                self.contributors@,
                self.search@,
                self.selected@,
                self.cursor,
            );
        }
    }

    /// Selects the highlighted candidate, or deselects it if it is selected;
    /// the selected candidates are pinned on top again and the cursor follows
    /// the toggled candidate.
    pub fn toggle_selected(&mut self)
        requires
            old(self).lists_ok(),
        ensures
            final(self).lists_ok(),
            old(self).wf() ==> final(self).wf(),
            old(self).cursor < old(self).filtered.len() ==> final(self).wf(),
            old(self).cursor < old(self).filtered.len() ==> final(self).selected_on_top(),
            old(self).selected_on_top() ==> final(self).selected_on_top(),
            (final(self).filtered@, final(self).selected@, final(self).cursor) == toggle_step(
                old(self).filtered@,
                old(self).selected@,
                old(self).cursor,
            ),
            old(self).cursor < old(self).filtered.len() ==> final(self).filtered@[final(self).cursor as int]
                == old(self).filtered@[old(self).cursor as int],
            old(self).cursor < old(self).filtered.len() ==> {
                let idx = old(self).filtered@[old(self).cursor as int];
                let sel = old(self).selected@;
                &&& forall|p: int|
                    0 <= p < sel.len() && #[trigger] sel[p] == idx ==> final(self).selected@
                        == sel.subrange(0, p) + sel.subrange(p + 1, sel.len() as int)
                &&& !sel.contains(idx) ==> final(self).selected@ == sel.push(idx)
            },
            final(self).contributors == old(self).contributors,
            final(self).search == old(self).search,
            final(self).commit_msg == old(self).commit_msg,
            final(self).commit_id == old(self).commit_id,
            final(self).should_quit == old(self).should_quit,
            final(self).confirmed == old(self).confirmed,
    {
        if self.cursor < self.filtered.len() {
            let idx = self.filtered[self.cursor];
            let ghost old_sel = self.selected@;
            let ghost old_filtered = self.filtered@;
            let mut p: usize = 0;
            while p < self.selected.len() && self.selected[p] != idx
                invariant
                    p <= self.selected.len(),
                    forall|j: int| 0 <= j < p ==> self.selected@[j] != idx,
                decreases self.selected.len() - p,
            {
                p += 1;
            }
            if p < self.selected.len() {
                self.selected.remove(p);
                proof {
                    old_sel.index_of_first_ensures(idx);
                    assert(old_sel.contains(idx));
                    let i = old_sel.index_of_first(idx)->0;
                    assert(i == p) by {
                        if i < p {
                            assert(old_sel[i] != idx);
                        }
                        if p < i {
                            assert(old_sel[p as int] != idx);
                        }
                    }
                    old_sel.remove_ensures(p as int);
                    let n = self.selected@;
                    assert forall|a: int, b: int|
                        0 <= a < n.len() && 0 <= b < n.len() && a != b implies n[a] != n[b] by {
                        let a0 = if a < p { a } else { a + 1 };
                        let b0 = if b < p { b } else { b + 1 };
                        assert(n[a] == old_sel[a0] && n[b] == old_sel[b0]);
                    }
                    assert forall|k: int| 0 <= k < n.len() implies #[trigger] n[k]
                        < self.contributors.len() by {
                        let k0 = if k < p { k } else { k + 1 };
                        assert(n[k] == old_sel[k0]);
                    }
                }
            } else {
                self.selected.push(idx);
                proof {
                    assert(!old_sel.contains(idx));
                    let n = self.selected@;
                    assert forall|a: int, b: int|
                        0 <= a < n.len() && 0 <= b < n.len() && a != b implies n[a] != n[b] by {
                        if a == old_sel.len() {
                            assert(old_sel.contains(n[b]));
                        } else if b == old_sel.len() {
                            assert(old_sel.contains(n[a]));
                        }
                    }
                }
            }
            assert(self.selected@ == toggled(old_sel, idx));
            proof {
                lemma_toggled_keeps_order(old_sel, idx);
                assert forall|p: int| 0 <= p < old_sel.len() && #[trigger] old_sel[p] == idx implies (forall|j: int|
                    0 <= j < p ==> old_sel[j] != idx) by {
                    assert forall|j: int| 0 <= j < p implies old_sel[j] != idx by {
                        if old_sel[j] == idx {
                            assert(old_sel[j] == old_sel[p]);
                        }
                    }
                }
            }
            self.sort_filtered();
            let mut q: usize = 0;
            proof {
                lemma_pinned_order(old_filtered, self.selected@);
                lemma_pinned_order_settled(old_filtered, self.selected@);
                assert(old_filtered.contains(idx));
                assert(self.filtered@.contains(idx));
            }
            while q < self.filtered.len() && self.filtered[q] != idx
                invariant
                    q <= self.filtered.len(),
                    self.filtered@.contains(idx),
                    forall|j: int| 0 <= j < q ==> self.filtered@[j] != idx,
                decreases self.filtered.len() - q,
            {
                q += 1;
            }
            if q < self.filtered.len() {
                self.cursor = q;
            }
            proof {
                let f = self.filtered@;
                if q == f.len() {
                    let j = choose|j: int| 0 <= j < f.len() && f[j] == idx;
                    assert(f[j] != idx);
                }
                assert(q < f.len() && f[q as int] == idx);
                let c = choose|k: int| 0 <= k < f.len() && f[k] == idx;
                assert(0 <= c < f.len() && f[c] == idx);
                assert(c == q);
                assert(position_of(f, idx) == q);
                assert forall|k: int| 0 <= k < f.len() implies #[trigger] f[k]
                    < self.contributors.len() by {
                    assert(f.contains(f[k]));
                    assert(old_filtered.contains(f[k]));
                    let j = choose|j: int| 0 <= j < old_filtered.len() && old_filtered[j] == f[k];
                    assert(old_filtered[j] < self.contributors.len());
                }
            }
        }
    }

    /// Whether the candidate with index `contributor_idx` is selected.
    pub fn is_selected(&self, contributor_idx: usize) -> (b: bool)
        ensures
            b == self.selected@.contains(contributor_idx),
    {
        contains_index(&self.selected, contributor_idx)
    }

    /// Moves the cursor one row up, unless it is on the first row.
    pub fn move_up(&mut self)
        ensures
            final(self).cursor == if old(self).cursor > 0 {
                (old(self).cursor - 1) as usize
            } else {
                old(self).cursor
            },
            old(self).wf() ==> final(self).wf(),
            final(self).contributors == old(self).contributors,
            final(self).filtered == old(self).filtered,
            final(self).selected == old(self).selected,
            final(self).search == old(self).search,
            final(self).commit_msg == old(self).commit_msg,
            final(self).commit_id == old(self).commit_id,
            final(self).should_quit == old(self).should_quit,
            final(self).confirmed == old(self).confirmed,
    {
        if self.cursor > 0 {
            self.cursor -= 1;
        }
    }

    /// Moves the cursor one row down, unless it is on the last row.
    pub fn move_down(&mut self)
        ensures
            final(self).cursor == if old(self).cursor + 1 < old(self).filtered.len() {
                (old(self).cursor + 1) as usize
            } else {
                old(self).cursor
            },
            old(self).wf() ==> final(self).wf(),
            final(self).contributors == old(self).contributors,
            final(self).filtered == old(self).filtered,
            final(self).selected == old(self).selected,
            final(self).search == old(self).search,
            final(self).commit_msg == old(self).commit_msg,
            final(self).commit_id == old(self).commit_id,
            final(self).should_quit == old(self).should_quit,
            final(self).confirmed == old(self).confirmed,
    {
        if self.filtered.len() > 0 && self.cursor < self.filtered.len() - 1 {
            self.cursor += 1;
        }
    }

    /// The selected candidates, in the order they were selected.
    pub fn get_selected_contributors(&self) -> (r: Vec<Contributor>)
        requires
            indices_below(self.selected@, self.contributors.len() as nat),
        ensures
            people(r@) == self.selected@.map_values(|k: usize| self.contributors@[k as int]@),
    {
        let mut r: Vec<Contributor> = Vec::new();
        let mut i: usize = 0;
        while i < self.selected.len()
            invariant
                i <= self.selected.len(),
                indices_below(self.selected@, self.contributors.len() as nat),
                people(r@) =~= self.selected@.take(i as int).map_values(
                    |k: usize| self.contributors@[k as int]@,
                ),
            decreases self.selected.len() - i,
        {
            let k = self.selected[i];
            let ghost before = r@;
            r.push(self.contributors[k].duplicate());
            proof {
                assert(people(r@) =~= people(before).push(self.contributors@[k as int]@));
                assert(self.selected@.take(i + 1) =~= self.selected@.take(i as int).push(k));
            }
            i += 1;
        }
        proof {
            assert(self.selected@.take(self.selected.len() as int) =~= self.selected@);
        }
        r
    }

    /// Applies one key press, as the picker's event loop does, and tells
    /// whether the loop ends: Esc and Control-C cancel, Enter confirms, Tab
    /// toggles the highlighted candidate and clears the search, Up and Down
    /// move the cursor, Backspace and typed characters edit the search, and
    /// every change of the search recomputes the shown list.
    pub fn handle_key(&mut self, key: Key) -> (done: bool)
        requires
            old(self).lists_ok(),
        ensures
            final(self).lists_ok(),
            old(self).wf() ==> final(self).wf(),
            (key is Tab || key is Backspace || typed(key) is Some) ==> final(self).wf(),
            old(self).selected_on_top() ==> final(self).selected_on_top(),
            key is Tab ==> forall|i: usize| #[trigger] final(self).filtered@.contains(i) <==> i
                < old(self).contributors.len(),
            done == ends(key),
            final(self).contributors == old(self).contributors,
            final(self).commit_msg == old(self).commit_msg,
            final(self).commit_id == old(self).commit_id,
            final(self).should_quit == (old(self).should_quit || cancels(key)),
            final(self).confirmed == (old(self).confirmed || key is Enter),
            (ends(key) || key is Other || key is Up || key is Down) ==> {
                &&& final(self).filtered == old(self).filtered
                &&& final(self).selected == old(self).selected
                &&& final(self).search == old(self).search
            },
            (ends(key) || key is Other) ==> final(self).cursor == old(self).cursor,
            key is Up ==> final(self).cursor == if old(self).cursor > 0 {
                (old(self).cursor - 1) as usize
            } else {
                old(self).cursor
            },
            key is Down ==> final(self).cursor == if old(self).cursor + 1 < old(self).filtered.len() {
                (old(self).cursor + 1) as usize
            } else {
                old(self).cursor
            },
            key is Tab ==> {
                let t = toggle_step(old(self).filtered@, old(self).selected@, old(self).cursor);
                &&& final(self).selected@ == t.1
                &&& final(self).search@ == Seq::<char>::empty()
                &&& (final(self).filtered@, final(self).cursor) == filter_step(
                    old(self).contributors@,
                    Seq::<char>::empty(),
                    t.1,
                    t.2,
                )
            },
            key is Backspace ==> {
                &&& final(self).selected == old(self).selected
                &&& final(self).search@ == without_last(old(self).search@)
                &&& (final(self).filtered@, final(self).cursor) == filter_step(
                    old(self).contributors@,
                    without_last(old(self).search@),
                    old(self).selected@,
                    old(self).cursor,
                )
            },
            typed(key) matches Some(ch) ==> {
                &&& final(self).selected == old(self).selected
                &&& final(self).search@ == old(self).search@.push(ch)
                &&& (final(self).filtered@, final(self).cursor) == filter_step(
                    old(self).contributors@,
                    old(self).search@.push(ch),
                    old(self).selected@,
                    old(self).cursor,
                )
            },
    {
        match key {
            Key::Esc => {
                self.should_quit = true;
                true
            },
            Key::Enter => {
                self.confirmed = true;
                true
            },
            Key::Tab => {
                self.toggle_selected();
                self.search = String::new();
                self.filter();
                false
            },
            Key::Up => {
                self.move_up();
                false
            },
            Key::Down => {
                self.move_down();
                false
            },
            Key::Backspace => {
                pop_char(&mut self.search);
                self.filter();
                false
            },
            Key::Char { ch, ctrl } => {
                if ch == 'c' && ctrl {
                    self.should_quit = true;
                    true
                } else {
                    push_char(&mut self.search, ch);
                    self.filter();
                    false
                }
            },
            Key::Other => false,
        }
    }

    /// What the picker hands back when it ends: the selected candidates, in
    /// selection order, if the user confirmed, else nothing.
    pub fn result_contributors(&self) -> (r: Vec<Contributor>)
        requires
            indices_below(self.selected@, self.contributors.len() as nat),
        ensures
            self.confirmed ==> people(r@) == self.selected@.map_values(
                |k: usize| self.contributors@[k as int]@,
            ),
            !self.confirmed ==> r@.len() == 0,
    {
        if self.confirmed {
            self.get_selected_contributors()
        } else {
            Vec::new()
        }
    }
}

/// Toggling the highlighted candidate twice (the cursor follows it between
/// the two presses) gives back the same selection, in the same order when the
/// candidate was not selected before; the same candidates are shown and the
/// cursor is still on the toggled candidate.
pub proof fn lemma_toggle_twice(filtered: Seq<usize>, selected: Seq<usize>, cursor: usize)
    requires
        filtered.no_duplicates(),
        selected.no_duplicates(),
        cursor < filtered.len(),
        filtered.len() <= usize::MAX,
    ensures
        ({
            let t1 = toggle_step(filtered, selected, cursor);
            let t2 = toggle_step(t1.0, t1.1, t1.2);
            &&& t2.1.to_set() == selected.to_set()
            &&& !selected.contains(filtered[cursor as int]) ==> t2.1 == selected
            &&& t2.2 < t2.0.len()
            &&& t2.0[t2.2 as int] == filtered[cursor as int]
            &&& forall|x: usize| #[trigger] t2.0.contains(x) <==> filtered.contains(x)
        }),
{
    let idx = filtered[cursor as int];
    let t1 = toggle_step(filtered, selected, cursor);
    let s1 = toggled(selected, idx);
    lemma_toggled(selected, idx);
    lemma_pinned_order(filtered, s1);
    let f1 = pinned_order(filtered, s1);
    assert(filtered.contains(idx));
    assert(f1.contains(idx));
    let k1 = choose|k: int| 0 <= k < f1.len() && f1[k] == idx;
    assert(0 <= k1 < f1.len() && f1[k1] == idx);
    let c1 = position_of(f1, idx);
    assert(c1 < f1.len() && f1[c1 as int] == idx);
    assert(t1 == (f1, s1, c1));
    let s2 = toggled(s1, idx);
    lemma_toggled(s1, idx);
    lemma_pinned_order(f1, s2);
    let f2 = pinned_order(f1, s2);
    assert(f2.contains(idx));
    let k2 = choose|k: int| 0 <= k < f2.len() && f2[k] == idx;
    assert(0 <= k2 < f2.len() && f2[k2] == idx);
    let c2 = position_of(f2, idx);
    assert(c2 < f2.len() && f2[c2 as int] == idx);
    let t2 = toggle_step(f1, s1, c1);
    assert(t2 == (f2, s2, c2));
    assert(s2.to_set() =~= selected.to_set()) by {
        assert forall|x: usize| s2.contains(x) == selected.contains(x) by {
            if x != idx {
                assert(s2.contains(x) == s1.contains(x));
                assert(s1.contains(x) == selected.contains(x));
            }
        }
    }
    if !selected.contains(idx) {
        assert(s1 == selected.push(idx));
        s1.index_of_first_ensures(idx);
        let p = s1.index_of_first(idx)->0;
        assert(p == selected.len()) by {
            if p < selected.len() {
                assert(selected.contains(s1[p]));
            }
        }
        assert(s2 =~= selected);
    }
}

} // verus!
