//! A document: an ordered sequence of rows with a backing file name and a
//! modified flag.

use crate::editing::{clusters_before, clusters_from, deleted, inserted};
use crate::highlighting::highlighted;
use crate::lines::{
    lemma_saved_text_push, lines_of, reload_restores_lines, saved_text, split_lines,
};
use crate::position::Position;
use crate::row::{Row, RowView};
use crate::search::{find_in, SearchDirection};
use crate::segmentation::cluster_count;
use vstd::prelude::*;
use vstd::string::StringExecFns;

verus! {

/// The lines of a text, the name of the file behind it, and whether it has
/// been changed since it was loaded or saved.
pub struct Document {
    rows: Vec<Row>,
    pub filename: Option<String>,
    dirty: bool,
}

/// What a [`Document`] stands for.
pub struct DocumentView {
    pub rows: Seq<RowView>,
    pub filename: Option<Seq<char>>,
    pub dirty: bool,
}

/// The bytes handed over are not the UTF-8 encoding of any text.
#[derive(Clone, Copy, Debug, PartialEq, Eq, Structural)]
pub struct EncodingError;

/// The views of `rows`, in order.
pub open spec fn views_of(rows: Seq<Row>) -> Seq<RowView> {
    rows.map_values(|row: Row| row@)
}

impl View for Document {
    type V = DocumentView;

    closed spec fn view(&self) -> DocumentView {
        DocumentView {
            rows: views_of(self.rows@),
            filename: self.filename.deep_view(),
            dirty: self.dirty,
        }
    }
}

/// Where a forward search for `query` from line `y`, cluster `x`, comes out:
/// in the first line from `y` on that holds a match, each line after `y`
/// searched from its start. The result is the pair of cluster and line.
pub open spec fn found_forward(rows: Seq<RowView>, query: Seq<char>, x: int, y: int) -> Option<
    (int, int),
>
    decreases rows.len() - y,
{
    if y < 0 || y >= rows.len() {
        None
    } else {
        match find_in(rows[y].text, query, x, SearchDirection::Forward) {
            Some(column) => Some((column, y)),
            None => found_forward(rows, query, 0, y + 1),
        }
    }
}

/// Where a backward search for `query` from line `y`, cluster `x`, comes
/// out: in the last line up to `y` that holds a match, each line before `y`
/// searched from its end. The result is the pair of cluster and line.
pub open spec fn found_backward(rows: Seq<RowView>, query: Seq<char>, x: int, y: int) -> Option<
    (int, int),
>
    decreases y,
{
    if y < 0 || y >= rows.len() {
        None
    } else {
        match find_in(rows[y].text, query, x, SearchDirection::Backward) {
            Some(column) => Some((column, y)),
            None => if y == 0 {
                None
            } else {
                found_backward(rows, query, cluster_count(rows[y - 1].text) as int, y - 1)
            },
        }
    }
}

/// Where a search for `query` from line `y`, cluster `x`, comes out.
pub open spec fn found(
    rows: Seq<RowView>,
    query: Seq<char>,
    x: int,
    y: int,
    direction: SearchDirection,
) -> Option<(int, int)> {
    if direction == SearchDirection::Forward {
        found_forward(rows, query, x, y)
    } else {
        found_backward(rows, query, x, y)
    }
}

/// The texts of `rows`, in order.
pub open spec fn texts_of(rows: Seq<RowView>) -> Seq<Seq<char>> {
    rows.map_values(|row: RowView| row.text)
}

/// The rows of a document loaded from `contents`: one per line, each
/// highlighted without a search word.
pub open spec fn loaded_rows(contents: Seq<char>) -> Seq<RowView> {
    lines_of(contents).map_values(|line: Seq<char>| settled(line))
}

/// A row that holds `text`, highlighted without a search word.
pub open spec fn settled(text: Seq<char>) -> RowView {
    RowView { text, highlighting: highlighted(text, None) }
}

/// Every row has one highlight class per cluster.
pub open spec fn all_settled(rows: Seq<RowView>) -> bool {
    forall|i: int|
        0 <= i < rows.len() ==> (#[trigger] rows[i]).highlighting.len() == cluster_count(
            rows[i].text,
        )
}

/// `rows` with every row highlighted anew for `word`.
pub open spec fn rehighlighted(rows: Seq<RowView>, word: Option<Seq<char>>) -> Seq<RowView> {
    rows.map_values(
        |row: RowView| RowView { text: row.text, highlighting: highlighted(row.text, word) },
    )
}

/// `rows` after a line break in line `y` in front of cluster `x`. A `y`
/// behind the last line adds one empty line; a `y` beyond that changes
/// nothing. Otherwise the broken line keeps its clusters before `x`, the
/// rest follows as a line of its own, and both are highlighted anew.
pub open spec fn with_line_break(rows: Seq<RowView>, x: int, y: int) -> Seq<RowView> {
    if y < 0 || y > rows.len() {
        rows
    } else if y == rows.len() {
        rows.push(RowView { text: Seq::empty(), highlighting: Seq::empty() })
    } else {
        let text = rows[y].text;
        rows.update(y, settled(clusters_before(text, x as nat))).insert(
            y + 1,
            settled(clusters_from(text, x as nat)),
        )
    }
}

/// `rows` after `c` went into line `y` in front of cluster `x`. A `y` behind
/// the last line gives a new last line that holds `c` alone; a `y` beyond
/// that changes nothing. The line is highlighted anew.
pub open spec fn with_char(rows: Seq<RowView>, x: int, y: int, c: char) -> Seq<RowView> {
    if y == rows.len() {
        rows.push(settled(seq![c]))
    } else if 0 <= y < rows.len() {
        rows.update(y, settled(inserted(rows[y].text, x as nat, c)))
    } else {
        rows
    }
}

/// `rows` after `times` insertions of `c`, each at line `y` in front of
/// cluster `x`.
pub open spec fn with_chars(rows: Seq<RowView>, x: int, y: int, c: char, times: nat) -> Seq<
    RowView,
>
    decreases times,
{
    if times == 0 {
        rows
    } else {
        with_char(with_chars(rows, x, y, c, (times - 1) as nat), x, y, c)
    }
}

/// `rows` after the insertion of `c` at line `y`, cluster `x`: a line feed
/// breaks the line, a tab stands for four spaces, any other scalar goes
/// into the line as it is.
pub open spec fn with_insert(rows: Seq<RowView>, x: int, y: int, c: char) -> Seq<RowView> {
    if c == '\n' {
        with_line_break(rows, x, y)
    } else if c == '\t' {
        with_chars(rows, x, y, ' ', 4)
    } else {
        with_char(rows, x, y, c)
    }
}

/// `rows` after a deletion at line `y`, cluster `x`. At the end of a line
/// that has a successor the two lines become one; anywhere else the cluster
/// at `x` goes, if there is one. The line is highlighted anew. A `y` behind
/// the last line changes nothing.
pub open spec fn with_delete(rows: Seq<RowView>, x: int, y: int) -> Seq<RowView> {
    if y < 0 || y >= rows.len() {
        rows
    } else if x == cluster_count(rows[y].text) && y + 1 < rows.len() {
        rows.remove(y + 1).update(y, settled(rows[y].text + rows[y + 1].text))
    } else {
        rows.update(y, settled(deleted(rows[y].text, x as nat)))
    }
}

/// A document that is loaded, saved and loaded again has the rows it had
/// after the first load, unless one of its lines still ends in a carriage
/// return then. (Such a line is saved with a line feed behind the carriage
/// return, and the two are read as one line ending.)
pub proof fn reload_restores_rows(contents: Seq<char>)
    requires
        forall|i: int|
            0 <= i < lines_of(contents).len() ==> !((#[trigger] lines_of(contents)[i]).len() > 0
                && lines_of(contents)[i].last() == '\r'),
    ensures
        loaded_rows(saved_text(texts_of(loaded_rows(contents)))) == loaded_rows(contents),
{
    reload_restores_lines(contents);
    assert(texts_of(loaded_rows(contents)) =~= lines_of(contents));
}

/// Inserting scalars leaves every row with one class per cluster.
pub proof fn lemma_with_chars_settled(rows: Seq<RowView>, x: int, y: int, c: char, times: nat)
    requires
        all_settled(rows),
    ensures
        all_settled(with_chars(rows, x, y, c, times)),
    decreases times,
{
    if times > 0 {
        lemma_with_chars_settled(rows, x, y, c, (times - 1) as nat);
        let before = with_chars(rows, x, y, c, (times - 1) as nat);
        let after = with_char(before, x, y, c);
        assert forall|i: int| 0 <= i < after.len() implies (#[trigger] after[i]).highlighting.len()
            == cluster_count(after[i].text) by {
            if y == before.len() {
                if i < before.len() {
                    assert(after[i] == before[i]);
                }
            } else if 0 <= y < before.len() {
                if i != y {
                    assert(after[i] == before[i]);
                }
            }
        }
    }
}

impl Default for Document {
    /// An empty, unnamed, unmodified document.
    fn default() -> (document: Document)
        ensures
            document@.rows.len() == 0,
            document@.filename is None,
            !document@.dirty,
    {
        Document { rows: Vec::new(), filename: None, dirty: false }
    }
}

impl Document {
    /// The document that a file named `filename` with the text `contents`
    /// holds: one row per line, unmodified.
    pub fn from_text(contents: &str, filename: &str) -> (document: Document)
        ensures
            document@.rows == loaded_rows(contents@),
            document@.filename == Some(filename@),
            !document@.dirty,
            all_settled(document@.rows),
    {
        let lines = split_lines(contents);
        let mut rows: Vec<Row> = Vec::new();
        let mut i: usize = 0;
        while i < lines.len()
            invariant
                i <= lines.len(),
                lines.deep_view() == lines_of(contents@),
                rows.len() == i,
                forall|k: int| 0 <= k < i ==> (#[trigger] rows@[k])@ == settled(lines@[k]@),
            decreases lines.len() - i,
        {
            let mut row = Row::from(lines[i].as_str());
            row.highlight(None);
            rows.push(row);
            i += 1;
        }
        let document = Document { rows, filename: Some(filename.to_owned()), dirty: false };
        proof {
            assert forall|k: int| 0 <= k < lines.len() implies lines.deep_view()[k]
                == lines@[k]@ by {}
            assert(document@.rows =~= loaded_rows(contents@));
        }
        document
    }

    /// The document that a file named `filename` with the contents `bytes`
    /// holds, or the reason why there is none: the bytes must be the UTF-8
    /// encoding of a text.
    pub fn from_bytes(bytes: &[u8], filename: &str) -> (r: Result<Document, EncodingError>)
        ensures
            match r {
                Ok(document) => {
                    &&& vstd::utf8::valid_utf8(bytes@)
                    &&& document@.rows == loaded_rows(vstd::utf8::decode_utf8(bytes@))
                    &&& document@.filename == Some(filename@)
                    &&& !document@.dirty
                    &&& all_settled(document@.rows)
                },
                Err(_) => !vstd::utf8::valid_utf8(bytes@),
            },
    {
        match core::str::from_utf8(bytes) {
            Ok(contents) => {
                proof {
                    vstd::utf8::encode_utf8_decode_utf8(contents@);
                }
                Ok(Document::from_text(contents, filename))
            },
            Err(_) => Err(EncodingError),
        }
    }

    /// The text to write when the document is saved: every row's text
    /// followed by one line feed, in order.
    pub fn contents(&self) -> (text: String)
        ensures
            text@ == saved_text(texts_of(self@.rows)),
    {
        let mut text = String::new();
        let ghost lines = texts_of(self@.rows);
        let mut i: usize = 0;
        proof {
            assert(lines.take(0) =~= Seq::<Seq<char>>::empty());
            assert(saved_text(lines.take(0)) =~= Seq::<char>::empty());
        }
        while i < self.rows.len()
            invariant
                i <= self.rows.len(),
                lines == texts_of(self@.rows),
                text@ == saved_text(lines.take(i as int)),
            decreases self.rows.len() - i,
        {
            proof {
                assert(lines.take(i + 1) =~= lines.take(i as int).push(lines[i as int]));
                lemma_saved_text_push(lines.take(i as int), lines[i as int]);
                assert(lines[i as int] == self.rows@[i as int]@.text);
            }
            text.append(self.rows[i].as_str());
            text.push('\n');
            i += 1;
        }
        proof {
            assert(lines.take(self.rows.len() as int) =~= lines);
        }
        text
    }

    /// What saving the document asks for: the name of the file to create
    /// and the text to write into it. A document without a file name asks
    /// for nothing; it is saved without any writing.
    pub fn save_request(&self) -> (request: Option<(String, String)>)
        ensures
            match request {
                Some((filename, text)) => self@.filename == Some(filename@) && text@ == saved_text(
                    texts_of(self@.rows),
                ),
                None => self@.filename is None,
            },
    {
        match &self.filename {
            Some(filename) => Some((filename.clone(), self.contents())),
            None => None,
        }
    }

    /// Ends an attempt to save the document. After a success (all that
    /// `save_request` asked for was done) the document counts as unmodified;
    /// after a failure it stays as it was.
    pub fn finish_save(&mut self, succeeded: bool)
        ensures
            final(self)@.rows == old(self)@.rows,
            final(self)@.filename == old(self)@.filename,
            final(self)@.dirty == (old(self)@.dirty && !succeeded),
    {
        if succeeded {
            self.dirty = false;
        }
    }

    /// Whether the document has been changed since it was loaded or saved.
    pub fn is_dirty(&self) -> (dirty: bool)
        ensures
            dirty == self@.dirty,
    {
        self.dirty
    }

    /// The row at `index`, if there is one.
    pub fn row(&self, index: usize) -> (row: Option<&Row>)
        ensures
            match row {
                Some(row) => index < self@.rows.len() && row@ == self@.rows[index as int],
                None => index >= self@.rows.len(),
            },
    {
        if index < self.rows.len() {
            Some(&self.rows[index])
        } else {
            None
        }
    }

    /// Whether the document has no rows.
    pub fn is_empty(&self) -> (empty: bool)
        ensures
            empty == (self@.rows.len() == 0),
    {
        self.rows.is_empty()
    }

    /// The number of rows.
    pub fn len(&self) -> (n: usize)
        ensures
            n == self@.rows.len(),
    {
        self.rows.len()
    }

    /// Highlights every row anew, with `word` as the search word.
    pub fn highlight(&mut self, word: Option<&str>)
        ensures
            final(self)@.rows == rehighlighted(old(self)@.rows, word.deep_view()),
            final(self)@.filename == old(self)@.filename,
            final(self)@.dirty == old(self)@.dirty,
            all_settled(final(self)@.rows),
    {
        let ghost before = self@.rows;
        let mut i: usize = 0;
        while i < self.rows.len()
            invariant
                i <= self.rows.len(),
                self.rows.len() == before.len(),
                self.filename == old(self).filename,
                self.dirty == old(self).dirty,
                forall|k: int|
                    0 <= k < i ==> (#[trigger] self.rows@[k])@ == rehighlighted(
                        before,
                        word.deep_view(),
                    )[k],
                forall|k: int| i <= k < before.len() ==> (#[trigger] self.rows@[k])@ == before[k],
            decreases self.rows.len() - i,
        {
            self.rows[i].highlight(word);
            i += 1;
        }
        assert(self@.rows =~= rehighlighted(before, word.deep_view()));
    }

    /// Breaks the line of `at` in front of the cluster of `at`: the line
    /// keeps what stands before the cluster, the rest becomes the next line,
    /// and both are highlighted anew. A line index behind the last line
    /// adds one empty line and breaks nothing; one beyond that is passed
    /// over in silence. The modified flag is left as it is.
    pub fn insert_newline(&mut self, at: &Position)
        ensures
            final(self)@.rows == with_line_break(old(self)@.rows, at.x as int, at.y as int),
            final(self)@.filename == old(self)@.filename,
            final(self)@.dirty == old(self)@.dirty,
            all_settled(old(self)@.rows) ==> all_settled(final(self)@.rows),
    {
        if at.y > self.rows.len() {
            return ;
        }
        if at.y == self.rows.len() {
            self.rows.push(Row::default());
            proof {
                let wanted = old(self)@.rows.push(
                    RowView { text: Seq::empty(), highlighting: Seq::empty() },
                );
                assert(self@.rows =~= wanted);
                if all_settled(old(self)@.rows) {
                    assert forall|i: int| 0 <= i < wanted.len() implies (
                    #[trigger] wanted[i]).highlighting.len() == cluster_count(wanted[i].text) by {
                        if i < old(self)@.rows.len() {
                            assert(wanted[i] == old(self)@.rows[i]);
                        }
                    }
                }
            }
            return ;
        }
        let ghost rows = self@.rows;
        let mut new_row = self.rows[at.y].split(at.x);
        self.rows[at.y].highlight(None);
        new_row.highlight(None);
        assert(at.y < self.rows.len());
        self.rows.insert(at.y + 1, new_row);
        proof {
            let text = rows[at.y as int].text;
            let wanted = rows.update(at.y as int, settled(clusters_before(text, at.x as nat))).insert(
                at.y + 1,
                settled(clusters_from(text, at.x as nat)),
            );
            assert(self@.rows =~= wanted);
        }
    }

    /// Puts `c`, which is neither a line feed nor a tab, into the line of
    /// `at`.
    fn insert_char(&mut self, at: &Position, c: char)
        ensures
            final(self)@.rows == with_char(old(self)@.rows, at.x as int, at.y as int, c),
            final(self)@.filename == old(self)@.filename,
            final(self)@.dirty == old(self)@.dirty,
    {
        if at.y == self.rows.len() {
            let mut text = String::new();
            text.push(c);
            let mut row = Row::from(text.as_str());
            row.highlight(None);
            self.rows.push(row);
            assert(self@.rows =~= with_char(old(self)@.rows, at.x as int, at.y as int, c));
        } else if at.y < self.rows.len() {
            self.rows[at.y].insert(at.x, c);
            self.rows[at.y].highlight(None);
            assert(self@.rows =~= with_char(old(self)@.rows, at.x as int, at.y as int, c));
        }
    }

    /// Inserts `c` at `at` and marks the document as modified. A line feed
    /// breaks the line, a tab becomes four spaces, and a line index beyond
    /// the end of the document is passed over in silence.
    pub fn insert(&mut self, at: &Position, c: char)
        ensures
            final(self)@.rows == with_insert(old(self)@.rows, at.x as int, at.y as int, c),
            final(self)@.filename == old(self)@.filename,
            final(self)@.dirty,
            all_settled(old(self)@.rows) ==> all_settled(final(self)@.rows),
    {
        self.dirty = true;
        if c == '\n' {
            self.insert_newline(at);
        } else if c == '\t' {
            let ghost before = self@.rows;
            let mut times: usize = 0;
            while times < 4
                invariant
                    times <= 4,
                    self@.rows == with_chars(before, at.x as int, at.y as int, ' ', times as nat),
                    self@.filename == old(self)@.filename,
                    self@.dirty,
                decreases 4 - times,
            {
                self.insert_char(at, ' ');
                times += 1;
            }
            proof {
                if all_settled(before) {
                    lemma_with_chars_settled(before, at.x as int, at.y as int, ' ', 4);
                }
            }
        } else {
            self.insert_char(at, c);
        }
    }

    /// Deletes at `at` and marks the document as modified: joins the next
    /// line to the line of `at` where `at` is the end of a line that has a
    /// successor, removes the cluster at `at` otherwise. A line index at or
    /// beyond the end of the document is passed over in silence.
    pub fn delete(&mut self, at: &Position)
        ensures
            final(self)@.rows == with_delete(old(self)@.rows, at.x as int, at.y as int),
            final(self)@.filename == old(self)@.filename,
            final(self)@.dirty,
            all_settled(old(self)@.rows) ==> all_settled(final(self)@.rows),
    {
        self.dirty = true;
        let len = self.rows.len();
        if at.y >= len {
            return ;
        }
        let ghost rows = self@.rows;
        assert(rows[at.y as int] == self.rows@[at.y as int]@);
        if at.x == self.rows[at.y].len() && at.y + 1 < len {
            let next_row = self.rows.remove(at.y + 1);
            assert(next_row@ == rows[at.y + 1]);
            self.rows[at.y].append(&next_row);
            self.rows[at.y].highlight(None);
            assert(self@.rows =~= with_delete(rows, at.x as int, at.y as int));
        } else {
            self.rows[at.y].delete(at.x);
            self.rows[at.y].highlight(None);
            assert(self@.rows =~= with_delete(rows, at.x as int, at.y as int));
        }
    }

    /// Searches for `query` from `at`: forward through the line of `at` and
    /// every line after it, or backward through the line of `at` and every
    /// line before it. Gives the place where the first match found starts.
    pub fn find(&self, query: &str, at: &Position, direction: SearchDirection) -> (r: Option<
        Position,
    >)
        ensures
            match r {
                Some(p) => found(self@.rows, query@, at.x as int, at.y as int, direction) == Some(
                    (p.x as int, p.y as int),
                ),
                None => found(self@.rows, query@, at.x as int, at.y as int, direction) is None,
            },
    {
        if at.y >= self.rows.len() {
            return None;
        }
        let mut x = at.x;
        let mut y = at.y;
        let ghost rows = self@.rows;
        match direction {
            SearchDirection::Forward => {
                while y < self.rows.len()
                    invariant
                        direction == SearchDirection::Forward,
                        rows == self@.rows,
                        y <= self.rows.len(),
                        found_forward(rows, query@, x as int, y as int) == found_forward(
                            rows,
                            query@,
                            at.x as int,
                            at.y as int,
                        ),
                    decreases self.rows.len() - y,
                {
                    assert(rows[y as int] == self.rows@[y as int]@);
                    if let Some(column) = self.rows[y].find(query, x, SearchDirection::Forward) {
                        return Some(Position { x: column, y });
                    }
                    y += 1;
                    x = 0;
                }
                None
            },
            SearchDirection::Backward => {
                loop
                    invariant
                        direction == SearchDirection::Backward,
                        rows == self@.rows,
                        y < self.rows.len(),
                        found_backward(rows, query@, x as int, y as int) == found_backward(
                            rows,
                            query@,
                            at.x as int,
                            at.y as int,
                        ),
                    decreases y,
                {
                    assert(rows[y as int] == self.rows@[y as int]@);
                    if let Some(column) = self.rows[y].find(query, x, SearchDirection::Backward) {
                        return Some(Position { x: column, y });
                    }
                    if y == 0 {
                        return None;
                    }
                    y -= 1;
                    assert(rows[y as int] == self.rows@[y as int]@);
                    x = self.rows[y].len();
                }
            },
        }
    }
}

} // verus!
