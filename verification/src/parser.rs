//! The directive scanner: one pass over the lines of a document, in which
//! directive blocks are replaced by their renderings and every other line
//! goes through as it is.
use crate::directive::{
    classify, closes_directive, content_lines, is_end, is_start, kind_of, kind_token,
    opens_directive, read_kind_token, DirectiveKind,
};
use crate::text::{chars_of, string_of, texts, trim, trim_end, trimmed, trimmed_end};
use crate::textbox::{begins_drawn, box_block, lemma_lines_rows_begin_drawn, render_box};
use crate::tree::{lemma_tree_block_begins, render_tree, tree_block};
use vstd::prelude::*;

verus! {

/// Why a scan stops.
#[derive(Debug, Clone, Copy, PartialEq, Eq, Structural)]
pub enum ScanError {
    /// An end marker inside a directive names no kind.
    MalformedDirectiveEnd,
    /// The regex engine rejected the segment pattern of the box renderer.
    PatternRejected,
}

/// Where the scanner stands between two lines.
#[derive(Debug)]
pub enum ScanState {
    /// Outside any directive.
    Outside,
    /// Inside a directive, with the lines buffered so far.
    Inside(Vec<String>),
}

/// The scanner's state as a mathematical value.
pub ghost enum Scan {
    Outside,
    Inside(Seq<Seq<char>>),
}

impl View for ScanState {
    type V = Scan;

    open spec fn view(&self) -> Scan {
        match self {
            ScanState::Outside => Scan::Outside,
            ScanState::Inside(buffer) => Scan::Inside(texts(buffer@)),
        }
    }
}

/// What is written in place of a directive of unknown kind.
pub open spec fn placeholder() -> Seq<char> {
    "Oops! this hasn't implemented yet (ᴗ_ ᴗ。)"@
}

/// Each row closed by a line feed.
pub open spec fn terminated(rows: Seq<Seq<char>>) -> Seq<Seq<char>> {
    Seq::new(rows.len(), |i: int| rows[i].push('\n'))
}

/// What a directive is replaced by when `end_line` closes it: the
/// rendering of `buffer`, which ends with that line, by the renderer that
/// the line names.
pub open spec fn dispatch(buffer: Seq<Seq<char>>, end_line: Seq<char>) -> Result<
    Seq<Seq<char>>,
    ScanError,
> {
    match kind_token(end_line) {
        None => Err(ScanError::MalformedDirectiveEnd),
        Some(token) => match kind_of(token) {
            DirectiveKind::Box => match box_block(buffer) {
                Some(drawn) => Ok(terminated(drawn)),
                None => Err(ScanError::PatternRejected),
            },
            DirectiveKind::Tree => Ok(seq![tree_block(buffer)]),
            DirectiveKind::Unknown => Ok(seq![placeholder()]),
        },
    }
}

/// One step of the scanner: the state after `line` and the texts written
/// to the output for it, in order.
///
/// A start marker opens a directive with an empty buffer and writes
/// nothing. Inside a directive, an end marker joins the buffer, closes the
/// directive and writes its rendering; any other line joins the buffer,
/// trimmed at its end, unless it is blank. Outside a directive a line is
/// written as it is.
pub open spec fn step(state: Scan, line: Seq<char>) -> Result<(Scan, Seq<Seq<char>>), ScanError> {
    if is_start(line) {
        Ok((Scan::Inside(Seq::empty()), Seq::empty()))
    } else {
        match state {
            Scan::Inside(buffer) => {
                if is_end(line) {
                    match dispatch(buffer.push(trim_end(line)), line) {
                        Ok(written) => Ok((Scan::Outside, written)),
                        Err(e) => Err(e),
                    }
                } else if trim(line).len() == 0 {
                    Ok((state, Seq::empty()))
                } else {
                    Ok((Scan::Inside(buffer.push(trim_end(line))), Seq::empty()))
                }
            },
            Scan::Outside => Ok((Scan::Outside, seq![line])),
        }
    }
}

fn close_directive(mut buffer: Vec<String>, line: &Vec<char>) -> (r: Result<Vec<String>, ScanError>)
    ensures
        match dispatch(texts(buffer@), line@) {
            Ok(written) => r is Ok && texts(r->Ok_0@) == written,
            Err(e) => r == Err::<Vec<String>, ScanError>(e),
        },
{
    let token = match read_kind_token(line) {
        Some(token) => token,
        None => {
            return Err(ScanError::MalformedDirectiveEnd);
        },
    };
    let mut written: Vec<String> = Vec::new();
    match classify(&token) {
        DirectiveKind::Box => {
            let drawn = match render_box(&mut buffer) {
                Ok(drawn) => drawn,
                Err(_) => {
                    return Err(ScanError::PatternRejected);
                },
            };
            let mut i: usize = 0;
            while i < drawn.len()
                invariant
                    i <= drawn.len(),
                    texts(written@) == terminated(texts(drawn@)).take(i as int),
                decreases drawn.len() - i,
            {
                let mut row = chars_of(drawn[i].as_str());
                row.push('\n');
                let text = string_of(&row);
                proof {
                    let all = terminated(texts(drawn@));
                    assert(text@ == all[i as int]);
                    assert(all.take(i + 1) =~= all.take(i as int).push(all[i as int]));
                    assert(texts(written@.push(text)) =~= texts(written@).push(text@));
                }
                written.push(text);
                i += 1;
            }
            proof {
                assert(terminated(texts(drawn@)).take(drawn.len() as int) =~= terminated(
                    texts(drawn@),
                ));
            }
        },
        DirectiveKind::Tree => {
            let text = render_tree(&mut buffer);
            proof {
                assert(texts(written@.push(text)) =~= seq![text@]);
            }
            written.push(text);
        },
        DirectiveKind::Unknown => {
            let text = String::from_str("Oops! this hasn't implemented yet (ᴗ_ ᴗ。)");
            proof {
                assert(texts(written@.push(text)) =~= seq![text@]);
            }
            written.push(text);
        },
    }
    Ok(written)
}

/// Takes one line of the document: returns the scanner's next state and
/// the texts to append to the output, in order.
pub fn handle_line(line: &String, state: ScanState) -> (r: Result<
    (ScanState, Vec<String>),
    ScanError,
>)
    ensures
        match step(state@, line@) {
            Ok((next, written)) => r is Ok && r->Ok_0.0@ == next && texts(r->Ok_0.1@) == written,
            Err(e) => r == Err::<(ScanState, Vec<String>), ScanError>(e),
        },
{
    let chars = chars_of(line.as_str());
    let mut written: Vec<String> = Vec::new();
    proof {
        assert(texts(written@) =~= Seq::<Seq<char>>::empty());
    }
    if opens_directive(&chars) {
        let buffer: Vec<String> = Vec::new();
        proof {
            assert(texts(buffer@) =~= Seq::<Seq<char>>::empty());
        }
        return Ok((ScanState::Inside(buffer), written));
    }
    match state {
        ScanState::Inside(mut buffer) => {
            if closes_directive(&chars) {
                let kept = string_of(&trimmed_end(&chars));
                proof {
                    assert(texts(buffer@.push(kept)) =~= texts(buffer@).push(trim_end(line@)));
                }
                buffer.push(kept);
                match close_directive(buffer, &chars) {
                    Ok(rendered) => Ok((ScanState::Outside, rendered)),
                    Err(e) => Err(e),
                }
            } else if trimmed(&chars).len() == 0 {
                Ok((ScanState::Inside(buffer), written))
            } else {
                let kept = string_of(&trimmed_end(&chars));
                proof {
                    assert(texts(buffer@.push(kept)) =~= texts(buffer@).push(trim_end(line@)));
                }
                buffer.push(kept);
                Ok((ScanState::Inside(buffer), written))
            }
        },
        ScanState::Outside => {
            let copy = line.clone();
            proof {
                assert(texts(written@.push(copy)) =~= seq![line@]);
            }
            written.push(copy);
            Ok((ScanState::Outside, written))
        },
    }
}

/// How far a scan has come: the scanner's state, what has been written,
/// and the error that stopped it, if one did.
pub ghost struct Run {
    pub state: Scan,
    pub written: Seq<Seq<char>>,
    pub failure: Option<ScanError>,
}

/// The scan of a whole document, line by line from the state outside any
/// directive. The first error stops it: what was written before stays, and
/// the lines after it are not looked at.
pub open spec fn run(lines: Seq<Seq<char>>) -> Run
    decreases lines.len(),
{
    if lines.len() == 0 {
        Run { state: Scan::Outside, written: Seq::empty(), failure: None }
    } else {
        let before = run(lines.drop_last());
        if before.failure is Some {
            before
        } else {
            match step(before.state, lines.last()) {
                Ok((next, written)) => Run {
                    state: next,
                    written: before.written + written,
                    failure: None,
                },
                Err(e) => Run { state: before.state, written: before.written, failure: Some(e) },
            }
        }
    }
}

/// A scan that has failed stays as it is, whatever lines follow.
pub proof fn lemma_failure_is_final(lines: Seq<Seq<char>>, k: int)
    requires
        0 <= k <= lines.len(),
        run(lines.take(k)).failure is Some,
    ensures
        run(lines) == run(lines.take(k)),
    decreases lines.len() - k,
{
    if k < lines.len() {
        assert(lines.take(k + 1).drop_last() =~= lines.take(k));
        lemma_failure_is_final(lines, k + 1);
    } else {
        assert(lines.take(k) =~= lines);
    }
}

/// Scans a document given by its lines. Returns the texts written to the
/// output, in order, and how the scan ended. A directive still open at the
/// end of the document is dropped without a trace.
pub fn parse_and_render(lines: &Vec<String>) -> (r: (Vec<String>, Result<(), ScanError>))
    ensures
        texts(r.0@) == run(texts(lines@)).written,
        r.1 == match run(texts(lines@)).failure {
            Some(e) => Err::<(), ScanError>(e),
            None => Ok::<(), ScanError>(()),
        },
{
    let ghost all = texts(lines@);
    let mut written: Vec<String> = Vec::new();
    let mut state = ScanState::Outside;
    let mut i: usize = 0;
    proof {
        assert(texts(written@) =~= Seq::<Seq<char>>::empty());
    }
    while i < lines.len()
        invariant
            i <= lines.len(),
            all == texts(lines@),
            run(all.take(i as int)) == (Run {
                state: state@,
                written: texts(written@),
                failure: None,
            }),
        decreases lines.len() - i,
    {
        proof {
            assert(all.take(i + 1).drop_last() =~= all.take(i as int));
            assert(all.take(i + 1).last() == lines@[i as int]@);
        }
        match handle_line(&lines[i], state) {
            Ok((next, mut more)) => {
                proof {
                    assert(texts(written@ + more@) =~= texts(written@) + texts(more@));
                }
                state = next;
                written.append(&mut more);
            },
            Err(e) => {
                proof {
                    lemma_failure_is_final(all, i + 1);
                }
                return (written, Err(e));
            },
        }
        i += 1;
    }
    proof {
        assert(all.take(lines.len() as int) =~= all);
    }
    (written, Ok(()))
}

/// Pass-through: a line met outside a directive that opens none is written
/// unchanged, right after everything written before it, and the scanner
/// stays outside.
pub proof fn lemma_pass_through(before: Seq<Seq<char>>, line: Seq<char>)
    requires
        run(before).failure is None,
        run(before).state == Scan::Outside,
        !is_start(line),
    ensures
        run(before.push(line)) == (Run {
            state: Scan::Outside,
            written: run(before).written.push(line),
            failure: None,
        }),
{
    assert(before.push(line).drop_last() =~= before);
    assert(run(before).written + seq![line] =~= run(before).written.push(line));
}

/// A start marker is never written to the output.
pub proof fn lemma_start_marker_not_written(before: Seq<Seq<char>>, line: Seq<char>)
    requires
        is_start(line),
    ensures
        run(before.push(line)).written == run(before).written,
{
    assert(before.push(line).drop_last() =~= before);
    assert(run(before).written + Seq::<Seq<char>>::empty() =~= run(before).written);
}

/// What has been written is never taken back nor reordered: the output
/// after more lines begins with the output before them.
pub proof fn lemma_written_grows(before: Seq<Seq<char>>, after: Seq<Seq<char>>)
    ensures
        run(before).written.is_prefix_of(run(before + after).written),
    decreases after.len(),
{
    if after.len() == 0 {
        assert(before + after =~= before);
    } else {
        lemma_written_grows(before, after.drop_last());
        assert((before + after).drop_last() =~= before + after.drop_last());
    }
}

/// A document without start markers comes out as it went in: every line
/// unchanged and in order, nothing added, with the scanner outside at the
/// end. Two scans of such a document therefore write the same.
pub proof fn lemma_plain_document_unchanged(lines: Seq<Seq<char>>)
    requires
        forall|i: int| 0 <= i < lines.len() ==> !is_start(#[trigger] lines[i]),
    ensures
        run(lines) == (Run { state: Scan::Outside, written: lines, failure: None }),
    decreases lines.len(),
{
    if lines.len() > 0 {
        let before = lines.drop_last();
        assert forall|i: int| 0 <= i < before.len() implies !is_start(#[trigger] before[i]) by {
            assert(before[i] == lines[i]);
        }
        lemma_plain_document_unchanged(before);
        lemma_pass_through(before, lines.last());
        assert(before.push(lines.last()) =~= lines);
    } else {
        assert(lines =~= Seq::<Seq<char>>::empty());
    }
}

/// An end marker that names no kind stops the scan of an open directive
/// with `MalformedDirectiveEnd`, whatever the buffer holds: no renderer is
/// consulted.
pub proof fn lemma_malformed_end_fails(buffer: Seq<Seq<char>>, line: Seq<char>)
    requires
        !is_start(line),
        is_end(line),
        kind_token(line) is None,
    ensures
        step(Scan::Inside(buffer), line) == Err::<(Scan, Seq<Seq<char>>), ScanError>(
            ScanError::MalformedDirectiveEnd,
        ),
{
}

/// A line cannot be both markers at once.
pub proof fn lemma_end_is_no_start(line: Seq<char>)
    requires
        is_end(line),
    ensures
        !is_start(line),
        line.len() > 0 && line[0] == '@',
{
    reveal_strlit("@@start");
    reveal_strlit("@@end");
    let marker = "@@end"@;
    assert(line.take(5)[0] == marker[0]);
    assert(line.take(5)[2] == marker[2]);
    if is_start(line) {
        assert(line.take(7)[2] == "@@start"@[2]);
    }
}

/// No marker reaches the output through a rendering: what is written when
/// an end marker closes a directive is neither that line nor any line that
/// begins with a marker.
pub proof fn lemma_rendering_holds_no_marker(buffer: Seq<Seq<char>>, line: Seq<char>)
    requires
        is_end(line),
    ensures
        match step(Scan::Inside(buffer), line) {
            Ok((next, written)) => next == Scan::Outside && forall|k: int|
                0 <= k < written.len() ==> !is_start(#[trigger] written[k]) && !is_end(written[k])
                    && written[k] != line,
            Err(_) => true,
        },
{
    lemma_end_is_no_start(line);
    reveal_strlit("@@start");
    reveal_strlit("@@end");
    match step(Scan::Inside(buffer), line) {
        Ok((next, written)) => {
            let full = buffer.push(trim_end(line));
            assert forall|k: int| 0 <= k < written.len() implies (#[trigger] written[k]).len() > 0
                && written[k][0] != '@' by {
                match kind_of(kind_token(line)->Some_0) {
                    DirectiveKind::Box => {
                        lemma_lines_rows_begin_drawn(content_lines(full));
                        let drawn = box_block(full)->Some_0;
                        assert(begins_drawn(drawn[k]));
                        assert(written[k] == drawn[k].push('\n'));
                        assert(written[k][0] == drawn[k][0]);
                    },
                    DirectiveKind::Tree => {
                        lemma_tree_block_begins(full);
                    },
                    DirectiveKind::Unknown => {
                        reveal_strlit("Oops! this hasn't implemented yet (ᴗ_ ᴗ。)");
                        assert(placeholder()[0] == 'O');
                    },
                }
            }
            assert forall|k: int| 0 <= k < written.len() implies !is_start(#[trigger] written[k])
                && !is_end(written[k]) && written[k] != line by {
                assert(written[k].len() > 0 && written[k][0] != '@');
                if is_start(written[k]) {
                    assert(written[k].take(7)[0] == "@@start"@[0]);
                }
                if is_end(written[k]) {
                    assert(written[k].take(5)[0] == "@@end"@[0]);
                }
            }
        },
        Err(_) => {},
    }
}

} // verus!
