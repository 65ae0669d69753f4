//! What the picker's screen shows: the header line and the rows of the
//! candidate list. Drawing them is left to the terminal front end.
use vstd::prelude::*;
use vstd::string::StringExecFns;
use crate::app::App;
use crate::git::{display_text, people, Person};
use crate::order::indices_below;
use crate::text::{chars_of, lines, slice_chars, split_lines, string_of, views};

verus! {

broadcast use vstd::string::group_string_axioms;

/// How a list row is highlighted.
#[derive(Debug, Clone, Copy, PartialEq, Eq, Structural)]
pub enum RowStyle {
    /// The row under the cursor.
    Cursor,
    /// A selected candidate's row.
    Selected,
    /// Any other row.
    Plain,
}

/// A row of the candidate list.
#[derive(Debug)]
pub enum Row {
    /// The rule drawn between the selected candidates and the others.
    Separator,
    /// A candidate: its mark and `Name <email>`, and its highlight.
    Entry { text: String, style: RowStyle },
}

/// A row as the logic sees it.
pub enum RowView {
    Separator,
    Entry(Seq<char>, RowStyle),
}

impl View for Row {
    type V = RowView;

    open spec fn view(&self) -> RowView {
        match self {
            Row::Separator => RowView::Separator,
            Row::Entry { text, style } => RowView::Entry(text@, *style),
        }
    }
}

/// The mark in front of a selected candidate.
pub const SELECTED_MARK: &'static str = "✓ ";

/// The mark in front of a candidate that is not selected.
pub const UNSELECTED_MARK: &'static str = "  ";

/// The row highlight: the cursor row first, then selected rows.
pub open spec fn row_style(at_cursor: bool, selected: bool) -> RowStyle {
    if at_cursor {
        RowStyle::Cursor
    } else if selected {
        RowStyle::Selected
    } else {
        RowStyle::Plain
    }
}

/// The entry row of a candidate.
pub open spec fn entry_row(p: Person, selected: bool, at_cursor: bool) -> RowView {
    RowView::Entry(
        (if selected {
            SELECTED_MARK@
        } else {
            UNSELECTED_MARK@
        }) + display_text(p),
        row_style(at_cursor, selected),
    )
}

/// The rows for the first `k` shown candidates, whether the last of them is
/// selected, and whether the separator has been placed: one entry per
/// candidate, and the separator once, before the first unselected candidate
/// that follows a selected one.
pub open spec fn rows_upto(
    filtered: Seq<usize>,
    selected: Seq<usize>,
    cursor: usize,
    ps: Seq<Person>,
    k: nat,
) -> (Seq<RowView>, bool, bool)
    decreases k,
{
    if k == 0 {
        (seq![], false, false)
    } else {
        let (prev, in_selected, separated) = rows_upto(filtered, selected, cursor, ps, (k - 1) as nat);
        let idx = filtered[k - 1];
        let is_sel = selected.contains(idx);
        let split = in_selected && !is_sel && !separated;
        let with_sep = if split {
            prev.push(RowView::Separator)
        } else {
            prev
        };
        (with_sep.push(entry_row(ps[idx as int], is_sel, k - 1 == cursor)), is_sel, separated || split)
    }
}

/// The rows of the candidate list.
pub open spec fn list_rows_view(app: &App) -> Seq<RowView> {
    rows_upto(app.filtered@, app.selected@, app.cursor, people(app.contributors@), app.filtered.len() as nat).0
}

/// The views of a list of rows.
pub open spec fn row_views(rows: Seq<Row>) -> Seq<RowView> {
    rows.map_values(|r: Row| r@)
}

/// The first line of a message (empty if it has none).
pub open spec fn first_line(msg: Seq<char>) -> Seq<char> {
    if lines(msg).len() > 0 {
        lines(msg)[0]
    } else {
        seq![]
    }
}

/// The lowercase hexadecimal digit for `d` (below 16).
pub open spec fn hex_digit(d: int) -> char {
    seq!['0', '1', '2', '3', '4', '5', '6', '7', '8', '9', 'a', 'b', 'c', 'd', 'e', 'f'][d]
}

/// The lowercase hexadecimal form of `bytes`: two digits per byte, high
/// half first.
pub open spec fn hex_text(bytes: Seq<u8>) -> Seq<char>
    decreases bytes.len(),
{
    if bytes.len() == 0 {
        seq![]
    } else {
        hex_text(bytes.drop_last()) + seq![
            hex_digit(bytes.last() as int / 16),
            hex_digit(bytes.last() as int % 16),
        ]
    }
}

/// The hexadecimal form has two characters per byte.
pub proof fn lemma_hex_text_len(bytes: Seq<u8>)
    ensures
        hex_text(bytes).len() == 2 * bytes.len(),
    decreases bytes.len(),
{
    if bytes.len() > 0 {
        lemma_hex_text_len(bytes.drop_last());
    }
}

/// Builds a `git2::Oid` from the 20 bytes (`Oid::from_bytes`, which refuses
/// only a length other than 20) and formats it with its `Display`, which
/// writes each byte as two lowercase hex digits, high half first.
#[verifier::external_body]
fn commit_hex(id: &[u8; 20]) -> (r: String)
    ensures
        r@ == hex_text(id@),
{
    git2::Oid::from_bytes(id).map(|oid| oid.to_string()).unwrap_or_default()
}

/// The header line: the short commit id and the first line of its message.
pub open spec fn header_view(id: Seq<u8>, msg: Seq<char>) -> Seq<char> {
    " Amending: "@ + hex_text(id).take(7) + " "@ + first_line(msg)
}

impl App {
    /// The rows of the candidate list, as drawn: each shown candidate with
    /// its mark and highlight, and a separator between the selected
    /// candidates and the rest.
    pub fn list_rows(&self) -> (rows: Vec<Row>)
        requires
            indices_below(self.filtered@, self.contributors.len() as nat),
        ensures
            row_views(rows@) == list_rows_view(self),
    {
        let mut rows: Vec<Row> = Vec::new();
        let mut in_selected = false;
        let mut separated = false;
        let mut i: usize = 0;
        while i < self.filtered.len()
            invariant
                i <= self.filtered.len(),
                indices_below(self.filtered@, self.contributors.len() as nat),
                (row_views(rows@), in_selected, separated) == rows_upto(
                    self.filtered@,
                    self.selected@,
                    self.cursor,
                    people(self.contributors@),
                    i as nat,
                ),
            decreases self.filtered.len() - i,
        {
            let idx = self.filtered[i];
            let is_sel = self.is_selected(idx);
            let ghost before = row_views(rows@);
            if in_selected && !is_sel && !separated {
                rows.push(Row::Separator);
                separated = true;
                proof {
                    assert(row_views(rows@) =~= before.push(RowView::Separator));
                }
            }
            let ghost with_sep = row_views(rows@);
            in_selected = is_sel;
            let mut text = if is_sel {
                String::from_str(SELECTED_MARK)
            } else {
                String::from_str(UNSELECTED_MARK)
            };
            let shown = self.contributors[idx].display();
            text.append(shown.as_str());
            let style = if i == self.cursor {
                RowStyle::Cursor
            } else if is_sel {
                RowStyle::Selected
            } else {
                RowStyle::Plain
            };
            rows.push(Row::Entry { text, style });
            proof {
                assert(people(self.contributors@)[idx as int] == self.contributors@[idx as int]@);
                assert(row_views(rows@) =~= with_sep.push(
                    entry_row(people(self.contributors@)[idx as int], is_sel, i == self.cursor),
                ));
            }
            i += 1;
        }
        rows
    }

    /// The header line: ` Amending: `, the first seven characters of the
    /// commit id, a space and the first line of the commit message.
    pub fn header_text(&self) -> (r: String)
        ensures
            r@ == header_view(self.commit_id@, self.commit_msg@),
    {
        let hex = commit_hex(&self.commit_id);
        proof {
            lemma_hex_text_len(self.commit_id@);
            assert(self.commit_id@.len() == 20);
        }
        let hex_chars = chars_of(hex.as_str());
        let short = slice_chars(&hex_chars, 0, 7);
        let mut r = String::from_str(" Amending: ");
        r.append(string_of(&short).as_str());
        r.append(" ");
        let msg_chars = chars_of(self.commit_msg.as_str());
        let ls = split_lines(&msg_chars);
        if ls.len() > 0 {
            r.append(string_of(&ls[0]).as_str());
        }
        proof {
            assert(hex_chars@.subrange(0, 7) =~= hex_text(self.commit_id@).take(7));
            if ls.len() > 0 {
                assert(views(ls@)[0] == ls@[0]@);
            } else {
                assert(r@ =~= " Amending: "@ + hex_text(self.commit_id@).take(7) + " "@ + Seq::<char>::empty());
            }
        }
        r
    }
}

/// The number of separator rows in `rows`.
pub open spec fn separator_count(rows: Seq<RowView>) -> nat
    decreases rows.len(),
{
    if rows.len() == 0 {
        0
    } else {
        separator_count(rows.drop_last()) + if rows.last() is Separator {
            1nat
        } else {
            0nat
        }
    }
}

/// The candidate list has one entry row per shown candidate and at most one
/// separator, which is there exactly when a selected candidate is followed
/// by an unselected one.
pub proof fn lemma_rows_shape(
    filtered: Seq<usize>,
    selected: Seq<usize>,
    cursor: usize,
    ps: Seq<Person>,
    k: nat,
)
    ensures
        ({
            let (rows, in_selected, separated) = rows_upto(filtered, selected, cursor, ps, k);
            &&& rows.len() == k + if separated {
                1nat
            } else {
                0nat
            }
            &&& separator_count(rows) == if separated {
                1nat
            } else {
                0nat
            }
            &&& in_selected == (k > 0 && selected.contains(filtered[k - 1]))
            &&& separated == exists|i: int|
                0 < i < k && #[trigger] selected.contains(filtered[i - 1]) && !selected.contains(
                    filtered[i],
                )
        }),
    decreases k,
{
    if k > 0 {
        lemma_rows_shape(filtered, selected, cursor, ps, (k - 1) as nat);
        let (prev, in_sel, sep) = rows_upto(filtered, selected, cursor, ps, (k - 1) as nat);
        let idx = filtered[k - 1];
        let is_sel = selected.contains(idx);
        let split = in_sel && !is_sel && !sep;
        let with_sep = if split {
            prev.push(RowView::Separator)
        } else {
            prev
        };
        let rows = with_sep.push(entry_row(ps[idx as int], is_sel, k - 1 == cursor));
        assert(rows.drop_last() == with_sep);
        if split {
            assert(with_sep.drop_last() == prev);
        }
        let sep2 = sep || split;
        assert(sep2 == exists|i: int|
            0 < i < k && #[trigger] selected.contains(filtered[i - 1]) && !selected.contains(
                filtered[i],
            )) by {
            if in_sel && !is_sel {
                assert(selected.contains(filtered[k - 2]) && !selected.contains(filtered[k - 1]));
            }
            if exists|i: int|
                0 < i < k && #[trigger] selected.contains(filtered[i - 1]) && !selected.contains(
                    filtered[i],
                ) {
                let i = choose|i: int|
                    0 < i < k && #[trigger] selected.contains(filtered[i - 1]) && !selected.contains(
                        filtered[i],
                    );
                if i < k - 1 {
                    assert(sep);
                }
            }
        }
        assert(rows_upto(filtered, selected, cursor, ps, k) == (rows, is_sel, sep2));
        assert(rows.len() == k + if sep2 { 1nat } else { 0nat });
        assert(separator_count(rows) == separator_count(with_sep));
        assert(separator_count(rows) == if sep2 { 1nat } else { 0nat });
    }
}

/// Whether a selected candidate at position `i - 1` is followed by an
/// unselected one at `i`.
pub open spec fn splits_at(filtered: Seq<usize>, selected: Seq<usize>, i: int) -> bool {
    0 < i && selected.contains(filtered[i - 1]) && !selected.contains(filtered[i])
}

/// The entry row of the candidate at position `i` of the shown list.
pub open spec fn entry_at(
    filtered: Seq<usize>,
    selected: Seq<usize>,
    cursor: usize,
    ps: Seq<Person>,
    i: int,
) -> RowView {
    entry_row(ps[filtered[i] as int], selected.contains(filtered[i]), i == cursor)
}

/// With no selected candidate followed by an unselected one among the first
/// `k`, the rows are the entries of those candidates in order.
proof fn lemma_rows_plain(
    filtered: Seq<usize>,
    selected: Seq<usize>,
    cursor: usize,
    ps: Seq<Person>,
    k: nat,
)
    ensures
        (forall|i: int| 0 < i < k ==> !#[trigger] splits_at(filtered, selected, i)) ==> {
            let rows = rows_upto(filtered, selected, cursor, ps, k).0;
            &&& rows.len() == k
            &&& forall|i: int| 0 <= i < k ==> #[trigger] rows[i] == entry_at(filtered, selected, cursor, ps, i)
        },
    decreases k,
{
    if k > 0 {
        let k1 = (k - 1) as nat;
        lemma_rows_plain(filtered, selected, cursor, ps, k1);
        lemma_rows_shape(filtered, selected, cursor, ps, k1);
        let (prev, in_sel, sep) = rows_upto(filtered, selected, cursor, ps, k1);
        let idx = filtered[k - 1];
        let is_sel = selected.contains(idx);
        let split = in_sel && !is_sel && !sep;
        let e = entry_at(filtered, selected, cursor, ps, k - 1);
        let rows = rows_upto(filtered, selected, cursor, ps, k).0;
        assert(rows == (if split {
            prev.push(RowView::Separator)
        } else {
            prev
        }).push(e));
        if forall|i: int| 0 < i < k ==> !#[trigger] splits_at(filtered, selected, i) {
            assert forall|i: int| 0 < i < k1 implies !#[trigger] splits_at(filtered, selected, i) by {
                assert(!splits_at(filtered, selected, i));
            }
            if k1 > 0 {
                assert(!splits_at(filtered, selected, k - 1));
            }
            assert(!split);
            assert forall|i: int| 0 <= i < k implies #[trigger] rows[i] == entry_at(
                filtered,
                selected,
                cursor,
                ps,
                i,
            ) by {
                if i < k1 {
                    assert(rows[i] == prev[i]);
                }
            }
        }
    }
}

/// With a first selected candidate followed by an unselected one at `j`, the
/// separator stands just before the entry of position `j`.
proof fn lemma_rows_split(
    filtered: Seq<usize>,
    selected: Seq<usize>,
    cursor: usize,
    ps: Seq<Person>,
    k: nat,
)
    ensures
        forall|j: int|
            0 < j < k && #[trigger] splits_at(filtered, selected, j) && (forall|i: int|
                0 < i < j ==> !#[trigger] splits_at(filtered, selected, i)) ==> {
                let rows = rows_upto(filtered, selected, cursor, ps, k).0;
                &&& rows.len() == k + 1
                &&& rows[j] is Separator
                &&& forall|i: int| 0 <= i < j ==> #[trigger] rows[i] == entry_at(filtered, selected, cursor, ps, i)
                &&& forall|i: int| j <= i < k ==> #[trigger] rows[i + 1] == entry_at(filtered, selected, cursor, ps, i)
            },
    decreases k,
{
    if k > 0 {
        let k1 = (k - 1) as nat;
        lemma_rows_split(filtered, selected, cursor, ps, k1);
        lemma_rows_plain(filtered, selected, cursor, ps, k1);
        lemma_rows_shape(filtered, selected, cursor, ps, k1);
        let (prev, in_sel, sep) = rows_upto(filtered, selected, cursor, ps, k1);
        let idx = filtered[k - 1];
        let is_sel = selected.contains(idx);
        let split = in_sel && !is_sel && !sep;
        let e = entry_at(filtered, selected, cursor, ps, k - 1);
        let rows = rows_upto(filtered, selected, cursor, ps, k).0;
        assert(rows == (if split {
            prev.push(RowView::Separator)
        } else {
            prev
        }).push(e));
        assert forall|j: int|
            0 < j < k && #[trigger] splits_at(filtered, selected, j) && (forall|i: int|
                0 < i < j ==> !#[trigger] splits_at(filtered, selected, i)) implies {
            &&& rows.len() == k + 1
            &&& rows[j] is Separator
            &&& forall|i: int| 0 <= i < j ==> #[trigger] rows[i] == entry_at(filtered, selected, cursor, ps, i)
            &&& forall|i: int| j <= i < k ==> #[trigger] rows[i + 1] == entry_at(filtered, selected, cursor, ps, i)
        } by {
            if j < k1 {
                assert(splits_at(filtered, selected, j));
                assert(sep);
                assert(!split);
                assert forall|i: int| 0 <= i < j implies #[trigger] rows[i] == entry_at(
                    filtered,
                    selected,
                    cursor,
                    ps,
                    i,
                ) by {
                    assert(rows[i] == prev[i]);
                }
                assert forall|i: int| j <= i < k implies #[trigger] rows[i + 1] == entry_at(
                    filtered,
                    selected,
                    cursor,
                    ps,
                    i,
                ) by {
                    if i < k1 {
                        assert(rows[i + 1] == prev[i + 1]);
                    }
                }
                assert(rows[j] == prev[j]);
            } else {
                assert(j == k - 1);
                assert forall|i: int| 0 < i < k1 implies !#[trigger] splits_at(filtered, selected, i) by {
                    assert(!splits_at(filtered, selected, i));
                }
                assert(!sep) by {
                    if sep {
                        let i = choose|i: int|
                            0 < i < k1 && #[trigger] selected.contains(filtered[i - 1])
                                && !selected.contains(filtered[i]);
                        assert(splits_at(filtered, selected, i));
                    }
                }
                assert(in_sel);
                assert(split);
                assert forall|i: int| 0 <= i < j implies #[trigger] rows[i] == entry_at(
                    filtered,
                    selected,
                    cursor,
                    ps,
                    i,
                ) by {
                    assert(rows[i] == prev[i]);
                }
            }
        }
    }
}

/// Where the separator sits: with no selected candidate followed by an
/// unselected one, the rows are the entries of the shown candidates in order;
/// otherwise the separator stands just before the first unselected candidate
/// that follows a selected one, and the entries keep their order around it.
pub proof fn lemma_rows_layout(
    filtered: Seq<usize>,
    selected: Seq<usize>,
    cursor: usize,
    ps: Seq<Person>,
    k: nat,
)
    ensures
        (forall|i: int| 0 < i < k ==> !#[trigger] splits_at(filtered, selected, i)) ==> {
            let rows = rows_upto(filtered, selected, cursor, ps, k).0;
            &&& rows.len() == k
            &&& forall|i: int| 0 <= i < k ==> #[trigger] rows[i] == entry_at(filtered, selected, cursor, ps, i)
        },
        forall|j: int|
            0 < j < k && #[trigger] splits_at(filtered, selected, j) && (forall|i: int|
                0 < i < j ==> !#[trigger] splits_at(filtered, selected, i)) ==> {
                let rows = rows_upto(filtered, selected, cursor, ps, k).0;
                &&& rows.len() == k + 1
                &&& rows[j] is Separator
                &&& forall|i: int| 0 <= i < j ==> #[trigger] rows[i] == entry_at(filtered, selected, cursor, ps, i)
                &&& forall|i: int| j <= i < k ==> #[trigger] rows[i + 1] == entry_at(filtered, selected, cursor, ps, i)
            },
{
    lemma_rows_plain(filtered, selected, cursor, ps, k);
    lemma_rows_split(filtered, selected, cursor, ps, k);
}

/// What each row shows: every shown candidate has one entry row, marked
/// `✓ ` when selected and with two spaces otherwise, followed by
/// `Name <email>`. The row of the candidate under the cursor is the cursor
/// row whether or not it is selected; another selected candidate's row is a
/// selected row, and any other row is plain. The entries keep the list's
/// order, with the separator just before the first unselected candidate that
/// follows a selected one, if there is one.
pub proof fn lemma_rows_entries(
    filtered: Seq<usize>,
    selected: Seq<usize>,
    cursor: usize,
    ps: Seq<Person>,
    k: nat,
)
    ensures
        (forall|i: int| 0 < i < k ==> !#[trigger] splits_at(filtered, selected, i)) ==> {
            let rows = rows_upto(filtered, selected, cursor, ps, k).0;
            &&& rows.len() == k
            &&& forall|i: int|
                0 <= i < k ==> #[trigger] rows[i] == RowView::Entry(
                    (if selected.contains(filtered[i]) {
                        "✓ "@
                    } else {
                        "  "@
                    }) + ps[filtered[i] as int].0 + " <"@ + ps[filtered[i] as int].1 + ">"@,
                    if i == cursor {
                        RowStyle::Cursor
                    } else if selected.contains(filtered[i]) {
                        RowStyle::Selected
                    } else {
                        RowStyle::Plain
                    },
                )
        },
        forall|j: int|
            0 < j < k && #[trigger] splits_at(filtered, selected, j) && (forall|i: int|
                0 < i < j ==> !#[trigger] splits_at(filtered, selected, i)) ==> {
                let rows = rows_upto(filtered, selected, cursor, ps, k).0;
                &&& rows.len() == k + 1
                &&& rows[j] is Separator
                &&& forall|i: int| 0 <= i < j ==> #[trigger] rows[i] == RowView::Entry(
                    (if selected.contains(filtered[i]) {
                        "✓ "@
                    } else {
                        "  "@
                    }) + ps[filtered[i] as int].0 + " <"@ + ps[filtered[i] as int].1 + ">"@,
                    if i == cursor {
                        RowStyle::Cursor
                    } else if selected.contains(filtered[i]) {
                        RowStyle::Selected
                    } else {
                        RowStyle::Plain
                    },
                )
                &&& forall|i: int| j <= i < k ==> #[trigger] rows[i + 1] == RowView::Entry(
                    (if selected.contains(filtered[i]) {
                        "✓ "@
                    } else {
                        "  "@
                    }) + ps[filtered[i] as int].0 + " <"@ + ps[filtered[i] as int].1 + ">"@,
                    if i == cursor {
                        RowStyle::Cursor
                    } else if selected.contains(filtered[i]) {
                        RowStyle::Selected
                    } else {
                        RowStyle::Plain
                    },
                )
            },
{
    reveal_strlit("✓ ");
    reveal_strlit("  ");
    reveal_strlit(" <");
    reveal_strlit(">");
    lemma_rows_layout(filtered, selected, cursor, ps, k);
    assert forall|i: int| 0 <= i < k implies #[trigger] entry_at(filtered, selected, cursor, ps, i)
        == RowView::Entry(
                    (if selected.contains(filtered[i]) {
                        "✓ "@
                    } else {
                        "  "@
                    }) + ps[filtered[i] as int].0 + " <"@ + ps[filtered[i] as int].1 + ">"@,
                    if i == cursor {
                        RowStyle::Cursor
                    } else if selected.contains(filtered[i]) {
                        RowStyle::Selected
                    } else {
                        RowStyle::Plain
                    },
                ) by {
        assert(SELECTED_MARK@ == "✓ "@);
        assert(UNSELECTED_MARK@ == "  "@);
        let p = ps[filtered[i] as int];
        let m = if selected.contains(filtered[i]) {
            "✓ "@
        } else {
            "  "@
        };
        assert(m + display_text(p) =~= m + p.0 + " <"@ + p.1 + ">"@);
    }
}

/// The hexadecimal form of the first bytes of an id begins the hexadecimal
/// form of the whole id.
proof fn lemma_hex_text_prefix(bytes: Seq<u8>, k: int)
    requires
        0 <= k <= bytes.len(),
    ensures
        hex_text(bytes).take(2 * k) == hex_text(bytes.take(k)),
    decreases bytes.len(),
{
    lemma_hex_text_len(bytes);
    if k == bytes.len() {
        assert(bytes.take(k) =~= bytes);
        assert(hex_text(bytes).take(2 * k) =~= hex_text(bytes));
    } else {
        let d = bytes.drop_last();
        lemma_hex_text_prefix(d, k);
        lemma_hex_text_len(d);
        assert(d.take(k) =~= bytes.take(k));
        assert(hex_text(bytes).take(2 * k) =~= hex_text(d).take(2 * k));
    }
}

/// The header names the commit by the first seven lowercase hexadecimal
/// digits of its id, high half of each byte first, after ` Amending: `,
/// followed by a space and the first line of the message.
pub proof fn lemma_header_short_id(id: Seq<u8>, msg: Seq<char>)
    requires
        id.len() >= 4,
    ensures
        header_view(id, msg) == " Amending: "@ + seq![
            "0123456789abcdef"@[id[0] as int / 16],
            "0123456789abcdef"@[id[0] as int % 16],
            "0123456789abcdef"@[id[1] as int / 16],
            "0123456789abcdef"@[id[1] as int % 16],
            "0123456789abcdef"@[id[2] as int / 16],
            "0123456789abcdef"@[id[2] as int % 16],
            "0123456789abcdef"@[id[3] as int / 16],
        ] + " "@ + first_line(msg),
{
    reveal_strlit("0123456789abcdef");
    lemma_hex_text_prefix(id, 4);
    let f = id.take(4);
    assert(f.drop_last().drop_last().drop_last().drop_last() =~= Seq::<u8>::empty());
    assert(f.drop_last().drop_last().drop_last() =~= seq![id[0]]);
    assert(f.drop_last().drop_last() =~= seq![id[0], id[1]]);
    assert(f.drop_last() =~= seq![id[0], id[1], id[2]]);
    reveal_with_fuel(hex_text, 5);
    let h = hex_text(f);
    assert forall|d: int| 0 <= d < 16 implies #[trigger] hex_digit(d) == "0123456789abcdef"@[d] by {}
    assert(hex_text(id).take(7) =~= h.take(7));
    assert(h.take(7) =~= seq!["0123456789abcdef"@[id[0] as int / 16], "0123456789abcdef"@[id[0] as int % 16], "0123456789abcdef"@[id[1] as int / 16], "0123456789abcdef"@[id[1] as int % 16], "0123456789abcdef"@[id[2] as int / 16], "0123456789abcdef"@[id[2] as int % 16], "0123456789abcdef"@[id[3] as int / 16]]);
}

} // verus!
