//! What a directive block looks like: its markers, its kinds, and the
//! buffer that collects its lines.
use crate::text::{chars_of, copy_range, has_prefix, starts_with, trim, trimmed};
use vstd::prelude::*;

verus! {

/// The token that opens a directive.
pub open spec fn start_marker() -> Seq<char> {
    "@@start"@
}

/// The token that closes a directive.
pub open spec fn end_marker() -> Seq<char> {
    "@@end"@
}

/// Whether `line` opens a directive.
pub open spec fn is_start(line: Seq<char>) -> bool {
    has_prefix(line, start_marker())
}

/// Whether `line` closes a directive.
pub open spec fn is_end(line: Seq<char>) -> bool {
    has_prefix(line, end_marker())
}

pub fn opens_directive(line: &Vec<char>) -> (b: bool)
    ensures
        b == is_start(line@),
{
    let marker = chars_of("@@start");
    starts_with(line, &marker)
}

pub fn closes_directive(line: &Vec<char>) -> (b: bool)
    ensures
        b == is_end(line@),
{
    let marker = chars_of("@@end");
    starts_with(line, &marker)
}

/// The lines of a directive buffer that hold content: all but the last,
/// which is the end marker.
pub open spec fn content_lines(buffer: Seq<Seq<char>>) -> Seq<Seq<char>> {
    if buffer.len() > 0 {
        buffer.drop_last()
    } else {
        buffer
    }
}

/// Whether the separator `::` stands at position `i` of `s`.
pub open spec fn sep_at(s: Seq<char>, i: int) -> bool {
    0 <= i && i + 1 < s.len() && s[i] == ':' && s[i + 1] == ':'
}

/// The position of the first `::` in `s`, or the length of `s` where there
/// is none.
pub open spec fn first_sep(s: Seq<char>) -> nat
    decreases s.len(),
{
    if s.len() < 2 {
        s.len()
    } else if s[0] == ':' && s[1] == ':' {
        0
    } else {
        1 + first_sep(s.drop_first())
    }
}

/// `first_sep` is the least position of a separator.
pub proof fn lemma_first_sep(s: Seq<char>)
    ensures
        0 <= first_sep(s) <= s.len(),
        first_sep(s) < s.len() ==> sep_at(s, first_sep(s) as int),
        forall|j: int| 0 <= j < first_sep(s) ==> !sep_at(s, j),
    decreases s.len(),
{
    if s.len() >= 2 && !(s[0] == ':' && s[1] == ':') {
        let t = s.drop_first();
        lemma_first_sep(t);
        assert forall|j: int| 0 <= j < first_sep(s) implies !sep_at(s, j) by {
            if j > 0 {
                assert(!sep_at(t, j - 1));
                assert(s[j] == t[j - 1]);
                if j + 1 < s.len() {
                    assert(s[j + 1] == t[j]);
                }
            }
        }
        if first_sep(s) < s.len() {
            let k = first_sep(t) as int;
            assert(sep_at(t, k));
            assert(s[k + 1] == t[k]);
            assert(s[k + 2] == t[k + 1]);
        }
    }
}

/// A separator with none before it is the first, and where there is no
/// separator at all `first_sep` is the length.
pub proof fn lemma_first_sep_is(s: Seq<char>, k: int)
    requires
        0 <= k <= s.len(),
        forall|j: int| 0 <= j < k ==> !sep_at(s, j),
        sep_at(s, k) || k + 1 >= s.len(),
    ensures
        first_sep(s) == if sep_at(s, k) {
            k
        } else {
            s.len() as int
        },
{
    lemma_first_sep(s);
    let f = first_sep(s) as int;
    if sep_at(s, k) {
        if f < k {
            assert(!sep_at(s, f));
        }
    } else {
        if f < s.len() {
            assert(sep_at(s, f));
            assert(f < k);
        }
    }
}

/// The kind token of an end marker line: what stands between the first
/// `::` and the next one, or the end of the line, trimmed. `None` where the
/// line holds no `::`.
pub open spec fn kind_token(line: Seq<char>) -> Option<Seq<char>> {
    let a = first_sep(line) as int;
    if a < line.len() {
        let rest = line.skip(a + 2);
        Some(trim(rest.take(first_sep(rest) as int)))
    } else {
        None
    }
}

/// Finds the first `::` at or after `from`; the length of `v` where there
/// is none.
pub fn find_sep(v: &Vec<char>, from: usize) -> (at: usize)
    requires
        from <= v.len(),
    ensures
        at == from + first_sep(v@.skip(from as int)),
        from <= at <= v.len(),
        at < v.len() ==> at + 2 <= v.len(),
{
    let n = v.len();
    let ghost rest = v@.skip(from as int);
    let mut i: usize = from;
    while i < n && !(n - i >= 2 && v[i] == ':' && v[i + 1] == ':')
        invariant
            from <= i <= n,
            n == v.len(),
            rest == v@.skip(from as int),
            forall|j: int| 0 <= j < i - from ==> !sep_at(rest, j),
        decreases n - i,
    {
        proof {
            assert(!sep_at(rest, i - from));
        }
        i += 1;
    }
    proof {
        if i < n {
            assert(sep_at(rest, i - from));
        }
        lemma_first_sep_is(rest, i - from);
    }
    i
}

/// Reads the kind token of an end marker line.
pub fn read_kind_token(line: &Vec<char>) -> (token: Option<Vec<char>>)
    ensures
        match kind_token(line@) {
            Some(t) => token is Some && token->Some_0@ == t,
            None => token is None,
        },
{
    let n = line.len();
    proof {
        assert(line@.skip(0) =~= line@);
    }
    let a = find_sep(line, 0);
    if a >= n {
        return None;
    }
    let b = find_sep(line, a + 2);
    let raw = copy_range(line, a + 2, b);
    proof {
        let rest = line@.skip(a + 2);
        assert(raw@ =~= rest.take(first_sep(rest) as int));
    }
    Some(trimmed(&raw))
}

/// The kinds of directive.
#[derive(Debug, Clone, Copy, PartialEq, Eq, Structural)]
pub enum DirectiveKind {
    /// Bordered boxes of wrapped text.
    Box,
    /// An indentation tree.
    Tree,
    /// Any other token.
    Unknown,
}

/// The kind that a token names.
pub open spec fn kind_of(token: Seq<char>) -> DirectiveKind {
    if token == "box"@ {
        DirectiveKind::Box
    } else if token == "tree"@ {
        DirectiveKind::Tree
    } else {
        DirectiveKind::Unknown
    }
}

pub fn classify(token: &Vec<char>) -> (kind: DirectiveKind)
    ensures
        kind == kind_of(token@),
{
    let box_name = chars_of("box");
    let tree_name = chars_of("tree");
    if same_text(token, &box_name) {
        DirectiveKind::Box
    } else if same_text(token, &tree_name) {
        DirectiveKind::Tree
    } else {
        DirectiveKind::Unknown
    }
}

fn same_text(a: &Vec<char>, b: &Vec<char>) -> (eq: bool)
    ensures
        eq == (a@ == b@),
{
    if a.len() != b.len() {
        return false;
    }
    let eq = starts_with(a, b);
    proof {
        assert(a@.take(b.len() as int) =~= a@);
    }
    eq
}

} // verus!
