//! Bordered text boxes: bracketed segments of a line are wrapped three
//! words to a row, framed, and laid side by side.
use crate::directive::content_lines;
use crate::text::{
    as_strs, chars_of, extend, join, join_range, lacks, lemma_join_begins, lemma_join_len_by_lengths,
    lemma_max_len, lemma_max_len_by_lengths, lemma_split_on_join, lemma_split_on_pieces, longest, max_len, push_repeat, repeat, rows, split, split_on,
    split_whitespace, string_of, strs, texts, words,
};
use vstd::prelude::*;

verus! {

/// `regex::Error`: why the regex engine turned a pattern down. It is
/// carried through unread.
#[verifier::external_type_specification]
#[verifier::external_body]
pub struct ExRegexError(regex::Error);

/// The segment pattern could not be compiled by the regex engine.
#[derive(Debug, Clone, Copy, PartialEq, Eq, Structural)]
pub struct PatternRejected;

/// What the regex engine finds for `pattern` in `haystack`: `None` when the
/// pattern does not compile, else one entry per successive non-overlapping
/// match, holding the text of capture group `group` if there is such a
/// group and it took part in the match.
pub uninterp spec fn captured(pattern: Seq<char>, group: nat, haystack: Seq<char>) -> Option<
    Seq<Option<Seq<char>>>,
>;

/// The character sequences held by a vector of optional strings.
pub open spec fn group_views(v: Seq<Option<String>>) -> Seq<Option<Seq<char>>> {
    Seq::new(
        v.len(),
        |i: int|
            match v[i] {
                Some(s) => Some(s@),
                None => None,
            },
    )
}

/// Compiles `pattern` with `regex::Regex::new` and walks `haystack` with
/// `Regex::captures_iter`, asking every match for `Captures::get(group)`
/// and copying the matched text out with `Match::as_str`. The outcome
/// depends on the arguments alone and is named `captured`; nothing more is
/// claimed of it.
#[verifier::external_body]
fn capture_group(pattern: &str, group: usize, haystack: &str) -> (r: Result<
    Vec<Option<String>>,
    regex::Error,
>)
    ensures
        match r {
            Ok(v) => captured(pattern@, group as nat, haystack@) == Some(group_views(v@)),
            Err(_) => captured(pattern@, group as nat, haystack@) is None,
        },
{
    let re = regex::Regex::new(pattern)?;
    Ok(re.captures_iter(haystack).map(|cap| cap.get(group).map(|m| m.as_str().to_string())).collect())
}

/// The pattern of one bracketed segment: an opening bracket, any run of
/// characters other than a closing bracket (the group), a closing bracket.
pub open spec fn segment_pattern() -> Seq<char> {
    "\\[([^\\]]*)\\]"@
}

/// The groups that took part, in order.
pub open spec fn present(groups: Seq<Option<Seq<char>>>) -> Seq<Seq<char>>
    decreases groups.len(),
{
    if groups.len() == 0 {
        Seq::empty()
    } else {
        match groups.last() {
            Some(g) => present(groups.drop_last()).push(g),
            None => present(groups.drop_last()),
        }
    }
}

/// Keeps the groups that took part in their match.
pub fn segments_of(groups: Vec<Option<String>>) -> (out: Vec<String>)
    ensures
        texts(out@) == present(group_views(groups@)),
{
    let ghost all = group_views(groups@);
    let mut out: Vec<String> = Vec::new();
    let mut i: usize = 0;
    while i < groups.len()
        invariant
            i <= groups.len(),
            all == group_views(groups@),
            texts(out@) == present(all.take(i as int)),
        decreases groups.len() - i,
    {
        proof {
            assert(all.take(i + 1).drop_last() =~= all.take(i as int));
        }
        match &groups[i] {
            Some(s) => {
                let copy = s.clone();
                proof {
                    assert(texts(out@.push(copy)) =~= texts(out@).push(copy@));
                }
                out.push(copy);
            },
            None => {},
        }
        i += 1;
    }
    proof {
        assert(all.take(groups.len() as int) =~= all);
    }
    out
}

/// The texts that capture group `group` of `pattern` matches in
/// `haystack`, match by match, as the regex engine reports them.
pub fn captures_of(pattern: &str, group: usize, haystack: &str) -> (r: Result<
    Vec<String>,
    PatternRejected,
>)
    ensures
        match captured(pattern@, group as nat, haystack@) {
            Some(groups) => r is Ok && texts(r->Ok_0@) == present(groups),
            None => r == Err::<Vec<String>, PatternRejected>(PatternRejected),
        },
{
    match capture_group(pattern, group, haystack) {
        Ok(groups) => Ok(segments_of(groups)),
        Err(_) => Err(PatternRejected),
    }
}

/// The texts of the bracketed segments of `directive_line`: what the first
/// group of the segment pattern matches in it.
pub fn get_box_string(directive_line: &String) -> (r: Result<Vec<String>, PatternRejected>)
    ensures
        match captured(segment_pattern(), 1, directive_line@) {
            Some(groups) => r is Ok && texts(r->Ok_0@) == present(groups),
            None => r == Err::<Vec<String>, PatternRejected>(PatternRejected),
        },
{
    captures_of("\\[([^\\]]*)\\]", 1, directive_line.as_str())
}

/// The words three to a row: row `i` holds words `3i`, `3i + 1` and
/// `3i + 2`, as far as there are any, with one space between neighbours.
pub open spec fn word_rows(ws: Seq<Seq<char>>) -> Seq<Seq<char>> {
    Seq::new(
        ((ws.len() + 2) / 3) as nat,
        |i: int|
            join(ws.subrange(3 * i, if 3 * i + 3 <= ws.len() {
                3 * i + 3
            } else {
                ws.len() as int
            }), ' '),
    )
}

/// A segment re-broken after every third word; rows are parted by a line
/// feed.
pub open spec fn wrap(segment: Seq<char>) -> Seq<char> {
    join(word_rows(words(segment)), '\n')
}

fn wrap_text(segment: &Vec<char>) -> (out: Vec<char>)
    ensures
        out@ == wrap(segment@),
{
    let ws = split_whitespace(segment);
    let n = ws.len();
    let ghost all = rows(ws@);
    let mut lines: Vec<Vec<char>> = Vec::new();
    let mut i: usize = 0;
    while i < n
        invariant
            i <= n,
            n == ws.len(),
            all == rows(ws@),
            i == n || i == 3 * lines.len(),
            3 * lines.len() < n + 3,
            i == n ==> 3 * lines.len() >= n,
            rows(lines@) == word_rows(all).take(lines.len() as int),
        decreases n - i,
    {
        let hi: usize = if n - i > 3 {
            i + 3
        } else {
            n
        };
        let line = join_range(&ws, i, hi, ' ');
        proof {
            let c = lines.len() as int;
            assert(line@ == word_rows(all)[c]);
            assert(rows(lines@.push(line)) =~= word_rows(all).take(c + 1));
        }
        lines.push(line);
        i = hi;
    }
    proof {
        assert(word_rows(all).take(lines.len() as int) =~= word_rows(all));
        assert(rows(lines@).subrange(0, lines.len() as int) =~= rows(lines@));
    }
    join_range(&lines, 0, lines.len(), '\n')
}

/// Re-breaks every segment after each third word.
pub fn newline_string(strings: Vec<&str>) -> (out: Vec<String>)
    ensures
        texts(out@) == Seq::new(strings@.len(), |i: int| wrap(strings@[i]@)),
{
    let mut out: Vec<String> = Vec::new();
    let mut i: usize = 0;
    while i < strings.len()
        invariant
            i <= strings.len(),
            out.len() == i,
            forall|j: int| 0 <= j < i ==> (#[trigger] out@[j])@ == wrap(strings@[j]@),
        decreases strings.len() - i,
    {
        let segment = chars_of(strings[i]);
        let wrapped = wrap_text(&segment);
        out.push(string_of(&wrapped));
        i += 1;
    }
    proof {
        assert(texts(out@) =~= Seq::new(strings@.len(), |i: int| wrap(strings@[i]@)));
    }
    out
}

/// The top and bottom edge of a box around text `width` characters wide.
pub open spec fn border(width: nat) -> Seq<char> {
    seq!['+'] + repeat('-', width + 2) + seq!['+']
}

/// One row of a box: `line` padded with spaces to `width`, inside a margin
/// of one space and two vertical bars.
pub open spec fn content_row(line: Seq<char>, width: nat) -> Seq<char> {
    seq!['|', ' '] + line + repeat(' ', (width - line.len()) as nat) + seq![' ', '|']
}

/// The rows of the box drawn around `text`: as wide as the longest of its
/// lines, with an edge above and below.
pub open spec fn box_rows(text: Seq<char>) -> Seq<Seq<char>> {
    let lines = split_on(text, '\n');
    let width = max_len(lines);
    seq![border(width)] + Seq::new(lines.len(), |i: int| content_row(lines[i], width)) + seq![
        border(width),
    ]
}

/// The box drawn around `text`, its rows parted by line feeds.
pub open spec fn textbox(text: Seq<char>) -> Seq<char> {
    join(box_rows(text), '\n')
}

fn border_row(width: usize) -> (out: Vec<char>)
    ensures
        out@ == border(width as nat),
{
    let mut out: Vec<char> = Vec::new();
    out.push('+');
    push_repeat(&mut out, '-', width);
    out.push('-');
    out.push('-');
    out.push('+');
    proof {
        assert(out@ =~= border(width as nat));
    }
    out
}

fn draw_rows(text: &Vec<char>) -> (out: Vec<Vec<char>>)
    ensures
        rows(out@) == box_rows(text@),
{
    let lines = split(text, '\n');
    let width = longest(&lines);
    let ghost all = split_on(text@, '\n');
    proof {
        assert(Seq::new(lines@.len(), |i: int| lines@[i]@) =~= all);
        lemma_max_len(all);
    }
    let mut out: Vec<Vec<char>> = Vec::new();
    out.push(border_row(width));
    let mut i: usize = 0;
    while i < lines.len()
        invariant
            i <= lines.len(),
            all == rows(lines@),
            width == max_len(all),
            forall|j: int| 0 <= j < all.len() ==> (#[trigger] all[j]).len() <= width,
            rows(out@) == seq![border(width as nat)] + Seq::new(
                i as nat,
                |j: int| content_row(all[j], width as nat),
            ),
        decreases lines.len() - i,
    {
        let mut row: Vec<char> = Vec::new();
        row.push('|');
        row.push(' ');
        extend(&mut row, &lines[i]);
        assert(all[i as int].len() <= width);
        push_repeat(&mut row, ' ', width - lines[i].len());
        row.push(' ');
        row.push('|');
        proof {
            assert(row@ =~= content_row(all[i as int], width as nat));
            let before = seq![border(width as nat)] + Seq::new(
                i as nat,
                |j: int| content_row(all[j], width as nat),
            );
            let after = seq![border(width as nat)] + Seq::new(
                (i + 1) as nat,
                |j: int| content_row(all[j], width as nat),
            );
            assert(after =~= before.push(row@));
            assert(rows(out@.push(row)) =~= rows(out@).push(row@));
        }
        out.push(row);
        i += 1;
    }
    let last = border_row(width);
    proof {
        assert(rows(out@.push(last)) =~= box_rows(text@));
    }
    out.push(last);
    out
}

/// Draws a box around each text.
pub fn create_textbox_string(strings: Vec<String>) -> (out: Vec<String>)
    ensures
        texts(out@) == Seq::new(strings@.len(), |i: int| textbox(strings@[i]@)),
{
    let mut out: Vec<String> = Vec::new();
    let mut i: usize = 0;
    while i < strings.len()
        invariant
            i <= strings.len(),
            out.len() == i,
            forall|j: int| 0 <= j < i ==> (#[trigger] out@[j])@ == textbox(strings@[j]@),
        decreases strings.len() - i,
    {
        let text = chars_of(strings[i].as_str());
        let drawn = draw_rows(&text);
        proof {
            assert(rows(drawn@).subrange(0, drawn.len() as int) =~= rows(drawn@));
        }
        let joined = join_range(&drawn, 0, drawn.len(), '\n');
        out.push(string_of(&joined));
        i += 1;
    }
    proof {
        assert(texts(out@) =~= Seq::new(strings@.len(), |i: int| textbox(strings@[i]@)));
    }
    out
}

/// Row `i` of a box given by its rows; below its last row, blanks as wide as
/// its own first row.
pub open spec fn cell(box_lines: Seq<Seq<char>>, i: int) -> Seq<char> {
    if i < box_lines.len() {
        box_lines[i]
    } else {
        repeat(' ', box_lines[0].len())
    }
}

/// The boxes, each given by its rows, set side by side: as many rows as
/// the tallest box has, each the boxes' cells of that row with one space
/// between neighbours. A box that has run out of rows is continued with
/// blanks of its own width.
pub open spec fn laid_out(boxes: Seq<Seq<Seq<char>>>) -> Seq<Seq<char>> {
    Seq::new(max_len(boxes), |i: int| join(Seq::new(boxes.len(), |j: int| cell(boxes[j], i)), ' '))
}

/// The drawn boxes, each given as one text with line feeds between its
/// rows, set side by side.
pub open spec fn side_by_side_rows(boxes: Seq<Seq<char>>) -> Seq<Seq<char>> {
    laid_out(Seq::new(boxes.len(), |j: int| split_on(boxes[j], '\n')))
}

/// Lays the drawn boxes out in one visual row.
pub fn side_by_side(textboxes: &Vec<String>) -> (out: Vec<String>)
    ensures
        texts(out@) == side_by_side_rows(texts(textboxes@)),
{
    let ghost boxes = texts(textboxes@);
    let ghost parts = Seq::new(boxes.len(), |j: int| split_on(boxes[j], '\n'));
    let count = textboxes.len();
    let mut split_boxes: Vec<Vec<Vec<char>>> = Vec::new();
    let mut j: usize = 0;
    while j < count
        invariant
            j <= count,
            count == textboxes.len(),
            split_boxes.len() == j,
            forall|k: int| 0 <= k < j ==> rows((#[trigger] split_boxes@[k])@) == split_on(textboxes@[k]@, '\n'),
        decreases count - j,
    {
        let text = chars_of(textboxes[j].as_str());
        split_boxes.push(split(&text, '\n'));
        j += 1;
    }
    let height = longest(&split_boxes);
    proof {
        assert forall|k: int| 0 <= k < count implies (#[trigger] split_boxes@[k])@.len() == parts[k].len()
            && parts[k].len() >= 1 by {
            assert(rows(split_boxes@[k]@).len() == split_boxes@[k]@.len());
            lemma_split_on_pieces(boxes[k], '\n');
        }
        lemma_max_len_by_lengths(Seq::new(split_boxes@.len(), |i: int| split_boxes@[i]@), parts);
    }
    let mut out: Vec<String> = Vec::new();
    let mut i: usize = 0;
    while i < height
        invariant
            i <= height,
            count == textboxes.len(),
            split_boxes.len() == count,
            boxes == texts(textboxes@),
            parts == Seq::new(boxes.len(), |j: int| split_on(boxes[j], '\n')),
            height == max_len(parts),
            forall|k: int| 0 <= k < count ==> rows((#[trigger] split_boxes@[k])@) == parts[k],
            forall|k: int| 0 <= k < count ==> (#[trigger] parts[k]).len() >= 1,
            out.len() == i,
            forall|r: int| 0 <= r < i ==> (#[trigger] out@[r])@ == side_by_side_rows(boxes)[r],
        decreases height - i,
    {
        let ghost want = Seq::new(boxes.len(), |j: int| cell(parts[j], i as int));
        let mut cells: Vec<Vec<char>> = Vec::new();
        let mut j: usize = 0;
        while j < count
            invariant
                j <= count,
                count == textboxes.len(),
                split_boxes.len() == count,
                boxes.len() == count,
                parts.len() == count,
                want == Seq::new(boxes.len(), |j: int| cell(parts[j], i as int)),
                forall|k: int| 0 <= k < count ==> rows((#[trigger] split_boxes@[k])@) == parts[k],
                forall|k: int| 0 <= k < count ==> (#[trigger] parts[k]).len() >= 1,
                cells.len() == j,
                forall|k: int| 0 <= k < j ==> (#[trigger] cells@[k])@ == want[k],
            decreases count - j,
        {
            let lines = &split_boxes[j];
            proof {
                assert(rows(split_boxes@[j as int]@) == parts[j as int]);
                assert(parts[j as int].len() >= 1);
                assert(rows(lines@).len() == lines@.len());
            }
            let mut piece: Vec<char> = Vec::new();
            if i < lines.len() {
                proof {
                    assert(rows(lines@)[i as int] == lines@[i as int]@);
                }
                extend(&mut piece, &lines[i]);
            } else {
                proof {
                    assert(rows(lines@)[0] == lines@[0]@);
                }
                push_repeat(&mut piece, ' ', lines[0].len());
            }
            proof {
                assert(piece@ =~= cell(parts[j as int], i as int));
            }
            cells.push(piece);
            j += 1;
        }
        proof {
            assert(rows(cells@) =~= want);
            assert(rows(cells@).subrange(0, cells.len() as int) =~= rows(cells@));
        }
        let row = join_range(&cells, 0, cells.len(), ' ');
        out.push(string_of(&row));
        i += 1;
    }
    proof {
        assert(texts(out@) =~= side_by_side_rows(boxes));
    }
    out
}

/// The rows that a line's segments come to: every segment wrapped, boxed,
/// and the boxes set side by side.
pub open spec fn segment_rows(segments: Seq<Seq<char>>) -> Seq<Seq<char>> {
    laid_out(Seq::new(segments.len(), |j: int| box_rows(wrap(segments[j]))))
}

/// Renders the segments of one line.
pub fn draw_segments(segments: Vec<String>) -> (out: Vec<String>)
    ensures
        texts(out@) == segment_rows(texts(segments@)),
{
    let ghost given = texts(segments@);
    let slices = as_strs(&segments);
    let ghost borrowed = slices@;
    let wrapped = newline_string(slices);
    let textboxes = create_textbox_string(wrapped);
    proof {
        assert forall|i: int| 0 <= i < given.len() implies texts(wrapped@)[i] == wrap(given[i]) by {
            assert(strs(borrowed)[i] == given[i]);
        }
        assert(texts(wrapped@).len() == wrapped@.len());
        assert(texts(textboxes@).len() == textboxes@.len());
        assert forall|i: int| 0 <= i < given.len() implies texts(textboxes@)[i] == textbox(
            wrap(given[i]),
        ) by {
            assert(texts(wrapped@)[i] == wrap(given[i]));
            assert(texts(wrapped@)[i] == wrapped@[i]@);
        }
        assert(texts(textboxes@) =~= Seq::new(given.len(), |i: int| textbox(wrap(given[i]))));
        lemma_side_by_side_textboxes(given);
    }
    side_by_side(&textboxes)
}

/// The rows that one line of a box directive renders to, or `None` where
/// the segment pattern is rejected.
pub open spec fn line_rows(line: Seq<char>) -> Option<Seq<Seq<char>>> {
    match captured(segment_pattern(), 1, line) {
        Some(groups) => Some(segment_rows(present(groups))),
        None => None,
    }
}

/// Renders one line of a box directive: its bracketed segments, boxed and
/// set side by side. Text outside brackets is left out.
pub fn draw_texbox(cmd_line: &String) -> (r: Result<Vec<String>, PatternRejected>)
    ensures
        match line_rows(cmd_line@) {
            Some(drawn) => r is Ok && texts(r->Ok_0@) == drawn,
            None => r == Err::<Vec<String>, PatternRejected>(PatternRejected),
        },
{
    match get_box_string(cmd_line) {
        Ok(segments) => Ok(draw_segments(segments)),
        Err(e) => Err(e),
    }
}

/// The rows of the given lines, one line's rows after another's, or `None`
/// where the segment pattern is rejected on one of them.
pub open spec fn lines_rows(lines: Seq<Seq<char>>) -> Option<Seq<Seq<char>>>
    decreases lines.len(),
{
    if lines.len() == 0 {
        Some(Seq::empty())
    } else {
        match (lines_rows(lines.drop_last()), line_rows(lines.last())) {
            (Some(before), Some(drawn)) => Some(before + drawn),
            _ => None,
        }
    }
}

/// The rows that a box directive renders to.
pub open spec fn box_block(buffer: Seq<Seq<char>>) -> Option<Seq<Seq<char>>> {
    lines_rows(content_lines(buffer))
}

/// One rejected line rejects every sequence of lines that begins with it
/// and what came before.
pub proof fn lemma_lines_rows_rejected(lines: Seq<Seq<char>>, k: int)
    requires
        0 <= k <= lines.len(),
        lines_rows(lines.take(k)) is None,
    ensures
        lines_rows(lines) is None,
    decreases lines.len() - k,
{
    if k < lines.len() {
        assert(lines.take(k + 1).drop_last() =~= lines.take(k));
        lemma_lines_rows_rejected(lines, k + 1);
    } else {
        assert(lines.take(k) =~= lines);
    }
}

/// Renders a box directive. The buffer ends with the directive's end
/// marker, which holds no content; every line before it is rendered in
/// turn. The buffer is left as it was.
pub fn render_box(directive_cmd: &mut Vec<String>) -> (r: Result<Vec<String>, PatternRejected>)
    ensures
        *final(directive_cmd) == *old(directive_cmd),
        match box_block(texts(old(directive_cmd)@)) {
            Some(drawn) => r is Ok && texts(r->Ok_0@) == drawn,
            None => r == Err::<Vec<String>, PatternRejected>(PatternRejected),
        },
{
    let ghost content = content_lines(texts(directive_cmd@));
    let n: usize = if directive_cmd.len() > 0 {
        directive_cmd.len() - 1
    } else {
        0
    };
    let mut out: Vec<String> = Vec::new();
    let mut i: usize = 0;
    while i < n
        invariant
            i <= n,
            n == content.len(),
            n <= directive_cmd.len(),
            *directive_cmd == *old(directive_cmd),
            content == content_lines(texts(directive_cmd@)),
            lines_rows(content.take(i as int)) == Some(texts(out@)),
        decreases n - i,
    {
        proof {
            assert(content.take(i + 1).drop_last() =~= content.take(i as int));
            assert(content.take(i + 1).last() == directive_cmd@[i as int]@);
        }
        match draw_texbox(&directive_cmd[i]) {
            Ok(mut drawn) => {
                proof {
                    assert(texts(out@ + drawn@) =~= texts(out@) + texts(drawn@));
                }
                out.append(&mut drawn);
            },
            Err(e) => {
                proof {
                    lemma_lines_rows_rejected(content, i + 1);
                }
                return Err(e);
            },
        }
        i += 1;
    }
    proof {
        assert(content.take(i as int) =~= content);
    }
    Ok(out)
}

/// The shape of a box: one row for every line of the text between two
/// edges, all rows of one width, four characters wider than the longest
/// line, and none of them holding a line feed.
pub proof fn lemma_box_rows(text: Seq<char>)
    ensures
        box_rows(text).len() == split_on(text, '\n').len() + 2,
        box_rows(text)[0] == border(max_len(split_on(text, '\n'))),
        box_rows(text).last() == border(max_len(split_on(text, '\n'))),
        forall|i: int|
            0 <= i < box_rows(text).len() ==> (#[trigger] box_rows(text)[i]).len() == max_len(
                split_on(text, '\n'),
            ) + 4,
        forall|i: int| 0 <= i < box_rows(text).len() ==> lacks(#[trigger] box_rows(text)[i], '\n'),
{
    let lines = split_on(text, '\n');
    let width = max_len(lines);
    let drawn = box_rows(text);
    lemma_max_len(lines);
    lemma_split_on_pieces(text, '\n');
    assert forall|i: int| 0 <= i < drawn.len() implies (#[trigger] drawn[i]).len() == width + 4
        && lacks(drawn[i], '\n') by {
        if 0 < i < drawn.len() - 1 {
            let line = lines[i - 1];
            assert(drawn[i] == content_row(line, width));
            assert(line.len() <= width);
            assert(lacks(line, '\n'));
            assert forall|j: int| 0 <= j < drawn[i].len() implies drawn[i][j] != '\n' by {
                if 2 <= j < 2 + line.len() {
                    assert(drawn[i][j] == line[j - 2]);
                }
            }
        } else {
            assert(drawn[i] == border(width));
        }
    }
}

/// The lines of a drawn box are its rows.
pub proof fn lemma_textbox_lines(text: Seq<char>)
    ensures
        split_on(textbox(text), '\n') == box_rows(text),
{
    lemma_box_rows(text);
    lemma_split_on_join(box_rows(text), '\n');
}

/// Setting drawn boxes side by side goes by their rows.
proof fn lemma_side_by_side_textboxes(segments: Seq<Seq<char>>)
    ensures
        side_by_side_rows(Seq::new(segments.len(), |i: int| textbox(wrap(segments[i]))))
            == segment_rows(segments),
{
    let boxes = Seq::new(segments.len(), |i: int| textbox(wrap(segments[i])));
    let parts = Seq::new(boxes.len(), |j: int| split_on(boxes[j], '\n'));
    let drawn = Seq::new(segments.len(), |j: int| box_rows(wrap(segments[j])));
    assert forall|j: int| 0 <= j < segments.len() implies #[trigger] parts[j] == drawn[j] by {
        lemma_textbox_lines(wrap(segments[j]));
    }
    assert(parts =~= drawn);
}

/// Whether `row` begins like a row of drawn boxes: with the corner or the
/// side of a box, or with a blank.
pub open spec fn begins_drawn(row: Seq<char>) -> bool {
    row.len() > 0 && (row[0] == '+' || row[0] == '|' || row[0] == ' ')
}

/// Every cell of a box is as wide as the box, and begins like a drawn row.
proof fn lemma_cell(text: Seq<char>, i: int)
    requires
        0 <= i,
    ensures
        cell(box_rows(text), i).len() == max_len(split_on(text, '\n')) + 4,
        begins_drawn(cell(box_rows(text), i)),
{
    lemma_box_rows(text);
    let drawn = box_rows(text);
    let width = max_len(split_on(text, '\n'));
    if i < drawn.len() {
        assert(drawn[i].len() == width + 4);
        if 0 < i < drawn.len() - 1 {
            assert(drawn[i] == content_row(split_on(text, '\n')[i - 1], width));
        } else {
            assert(drawn[i] == border(width));
        }
    } else {
        assert(drawn[0].len() == width + 4);
    }
}

/// The rows of a line form a rectangle: all of one length. Each begins
/// with the corner or the side of the first box, or with a blank below it.
pub proof fn lemma_segment_rows_rectangular(segments: Seq<Seq<char>>)
    ensures
        forall|i: int, k: int|
            0 <= i < segment_rows(segments).len() && 0 <= k < segment_rows(segments).len() ==> (
            #[trigger] segment_rows(segments)[i]).len() == (#[trigger] segment_rows(
                segments,
            )[k]).len(),
        forall|i: int|
            0 <= i < segment_rows(segments).len() ==> begins_drawn(
                #[trigger] segment_rows(segments)[i],
            ),
{
    let boxes = Seq::new(segments.len(), |j: int| box_rows(wrap(segments[j])));
    let all = segment_rows(segments);
    lemma_max_len(boxes);
    assert forall|i: int, k: int| 0 <= i < all.len() && 0 <= k < all.len() implies (
    #[trigger] all[i]).len() == (#[trigger] all[k]).len() by {
        let at_i = Seq::new(boxes.len(), |j: int| cell(boxes[j], i));
        let at_k = Seq::new(boxes.len(), |j: int| cell(boxes[j], k));
        assert forall|j: int| 0 <= j < at_i.len() implies (#[trigger] at_i[j]).len()
            == at_k[j].len() by {
            lemma_cell(wrap(segments[j]), i);
            lemma_cell(wrap(segments[j]), k);
        }
        lemma_join_len_by_lengths(at_i, at_k, ' ');
    }
    assert forall|i: int| 0 <= i < all.len() implies begins_drawn(#[trigger] all[i]) by {
        let at_i = Seq::new(boxes.len(), |j: int| cell(boxes[j], i));
        assert(boxes.len() > 0);
        lemma_cell(wrap(segments[0]), i);
        lemma_join_begins(at_i, ' ');
        assert(at_i[0] == cell(box_rows(wrap(segments[0])), i));
        assert(all[i][0] == at_i[0][0]);
    }
}

/// Every row that a box directive renders to begins like a drawn row.
pub proof fn lemma_lines_rows_begin_drawn(lines: Seq<Seq<char>>)
    ensures
        lines_rows(lines) is Some ==> forall|i: int|
            0 <= i < lines_rows(lines)->Some_0.len() ==> begins_drawn(
                #[trigger] lines_rows(lines)->Some_0[i],
            ),
    decreases lines.len(),
{
    if lines.len() > 0 && lines_rows(lines) is Some {
        lemma_lines_rows_begin_drawn(lines.drop_last());
        let before = lines_rows(lines.drop_last())->Some_0;
        let groups = captured(segment_pattern(), 1, lines.last())->Some_0;
        lemma_segment_rows_rectangular(present(groups));
        let drawn = segment_rows(present(groups));
        assert forall|i: int| 0 <= i < (before + drawn).len() implies begins_drawn(
            #[trigger] (before + drawn)[i],
        ) by {
            if i < before.len() {
                assert((before + drawn)[i] == before[i]);
            } else {
                assert((before + drawn)[i] == drawn[i - before.len()]);
            }
        }
    }
}

} // verus!
