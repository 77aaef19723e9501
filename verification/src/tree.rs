//! Tree diagrams: indented bullet lines become a hierarchy, which is drawn
//! with branch connectors.
use crate::directive::content_lines;
use crate::text::{
    as_strs, back_run_len, chars_of, concat, copy_range, extend, rows, run_len, scan_run, string_of, strs, texts, trim,
    trim_start, trimmed, CharClass,
};
use vstd::prelude::*;

verus! {

/// A node of the hierarchy: a label and the nodes below it, in order.
#[derive(Debug)]
pub struct TreeNode {
    pub value: String,
    pub children: Vec<TreeNode>,
}

/// The mathematical tree that a `TreeNode` stands for.
pub ghost struct Tree {
    pub value: Seq<char>,
    pub children: Seq<Tree>,
}

/// The tree that `node` stands for.
pub open spec fn tree_of(node: TreeNode) -> Tree
    decreases node,
{
    Tree {
        value: node.value@,
        children: Seq::new(
            node.children.len() as nat,
            |i: int|
                if 0 <= i < node.children.len() {
                    tree_of(node.children[i])
                } else {
                    arbitrary()
                },
        ),
    }
}

impl View for TreeNode {
    type V = Tree;

    open spec fn view(&self) -> Tree {
        tree_of(*self)
    }
}

/// The trees that a sequence of nodes stands for.
pub open spec fn forest(nodes: Seq<TreeNode>) -> Seq<Tree> {
    Seq::new(nodes.len(), |i: int| nodes[i]@)
}

impl TreeNode {
    /// A node without children.
    pub fn new(value: String) -> (node: Self)
        ensures
            node@ == (Tree { value: value@, children: Seq::empty() }),
    {
        let node = TreeNode { value, children: Vec::new() };
        proof {
            assert(node@.children =~= Seq::empty());
        }
        node
    }
}

/// The depth of a bullet line: a level for every four leading spaces, the
/// remainder dropped.
pub open spec fn depth_of(line: Seq<char>) -> nat {
    run_len(line, CharClass::Only(' ')) / 4
}

/// The label of a bullet line: the line without leading whitespace and
/// without one `-` after it, trimmed.
pub open spec fn label_of(line: Seq<char>) -> Seq<char> {
    let body = trim_start(line);
    if body.len() > 0 && body[0] == '-' {
        trim(body.drop_first())
    } else {
        trim(body)
    }
}

/// The nodes that `lines` put at `level`. A line at that depth opens a
/// node, whose children are what the lines after it put one level down.
/// Deeper lines are passed over here; the first shallower line ends the
/// walk.
pub open spec fn children_at(lines: Seq<Seq<char>>, level: nat) -> Seq<Tree>
    decreases lines.len(),
{
    if lines.len() == 0 {
        Seq::empty()
    } else if depth_of(lines[0]) < level {
        Seq::empty()
    } else if depth_of(lines[0]) == level {
        seq![
            Tree {
                value: label_of(lines[0]),
                children: children_at(lines.drop_first(), level + 1),
            },
        ] + children_at(lines.drop_first(), level)
    } else {
        children_at(lines.drop_first(), level)
    }
}

/// The hierarchy of a bullet list: a root labelled `.` above the nodes of
/// depth zero.
pub open spec fn bullet_tree(lines: Seq<Seq<char>>) -> Tree {
    Tree { value: seq!['.'], children: children_at(lines, 0) }
}

fn depth(line: &Vec<char>) -> (d: usize)
    ensures
        d == depth_of(line@),
        d <= line.len(),
{
    let n = line.len();
    proof {
        assert(line@.subrange(0, n as int) =~= line@);
    }
    scan_run(line, 0, n, CharClass::Only(' ')) / 4
}

fn label(line: &Vec<char>) -> (out: Vec<char>)
    ensures
        out@ == label_of(line@),
{
    let n = line.len();
    let a = scan_run(line, 0, n, CharClass::Blank);
    proof {
        assert(line@.subrange(0, n as int) =~= line@);
        assert(line@.subrange(a as int, n as int) =~= trim_start(line@));
    }
    let b: usize = if a < n && line[a] == '-' {
        a + 1
    } else {
        a
    };
    let body = copy_range(line, b, n);
    proof {
        if a < n && line[a as int] == '-' {
            assert(body@ =~= trim_start(line@).drop_first());
        }
    }
    trimmed(&body)
}

fn add_children(lines: &Vec<Vec<char>>, start: usize, level: usize) -> (out: Vec<TreeNode>)
    requires
        level <= start <= lines.len(),
    ensures
        forest(out@) == children_at(rows(lines@).skip(start as int), level as nat),
    decreases lines.len() - start,
{
    let ghost all = rows(lines@);
    let mut out: Vec<TreeNode> = Vec::new();
    let mut i: usize = start;
    while i < lines.len()
        invariant
            level <= start <= i <= lines.len(),
            all == rows(lines@),
            forest(out@) + children_at(all.skip(i as int), level as nat) == children_at(
                all.skip(start as int),
                level as nat,
            ),
        decreases lines.len() - i,
    {
        let d = depth(&lines[i]);
        proof {
            assert(all.skip(i as int)[0] == lines@[i as int]@);
            assert(all.skip(i as int).drop_first() =~= all.skip(i + 1));
        }
        if d < level {
            proof {
                assert(forest(out@) + Seq::<Tree>::empty() =~= forest(out@));
            }
            return out;
        }
        if d == level {
            let below = add_children(lines, i + 1, level + 1);
            let child = TreeNode { value: string_of(&label(&lines[i])), children: below };
            proof {
                assert(child@.children =~= forest(below@));
                assert(forest(out@.push(child)) =~= forest(out@) + seq![child@]);
                assert((forest(out@) + seq![child@]) + children_at(all.skip(i + 1), level as nat)
                    =~= forest(out@) + (seq![child@] + children_at(all.skip(i + 1), level as nat)));
            }
            out.push(child);
        }
        i += 1;
    }
    proof {
        assert(forest(out@) + Seq::<Tree>::empty() =~= forest(out@));
    }
    out
}

/// Builds the hierarchy of a bullet list.
pub fn parse_bullet_points(lines: &[&str]) -> (root: TreeNode)
    ensures
        root@ == bullet_tree(strs(lines@)),
{
    let mut all: Vec<Vec<char>> = Vec::new();
    let mut i: usize = 0;
    while i < lines.len()
        invariant
            i <= lines.len(),
            rows(all@) == strs(lines@).take(i as int),
        decreases lines.len() - i,
    {
        let line = chars_of(lines[i]);
        proof {
            assert(line@ == lines@[i as int]@);
            assert(strs(lines@).take(i + 1) =~= strs(lines@).take(i as int).push(lines@[i as int]@));
            assert(rows(all@.push(line)) =~= rows(all@).push(line@));
        }
        all.push(line);
        i += 1;
    }
    proof {
        assert(strs(lines@).take(lines.len() as int) =~= strs(lines@));
        assert(rows(all@).skip(0) =~= rows(all@));
    }
    let children = add_children(&all, 0, 0);
    let mut dot: Vec<char> = Vec::new();
    dot.push('.');
    let root = TreeNode { value: string_of(&dot), children };
    proof {
        assert(root@.children =~= forest(children@));
        assert(root@.value =~= seq!['.']);
    }
    root
}

/// The glyph that ties a node to the rail of its parent.
pub open spec fn connector(is_last: bool) -> Seq<char> {
    if is_last {
        "└── "@
    } else {
        "├── "@
    }
}

/// What a node adds to the prefix of the nodes below it: a rail while
/// siblings of the node are still to come, blanks after its parent's last.
pub open spec fn rail(is_last: bool) -> Seq<char> {
    if is_last {
        "    "@
    } else {
        "│   "@
    }
}

/// The line of one node: prefix, connector and trimmed label. With an empty
/// prefix there is no connector.
pub open spec fn node_line(value: Seq<char>, prefix: Seq<char>, is_last: bool) -> Seq<char> {
    if prefix.len() > 0 {
        prefix + connector(is_last) + trim(value) + seq!['\n']
    } else {
        trim(value) + seq!['\n']
    }
}

/// The drawing of `tree`, depth first: its own line, then the drawings of
/// its children under the prefix grown by its rail, the last child marked
/// as last.
pub open spec fn tree_text(tree: Tree, prefix: Seq<char>, is_last: bool) -> Seq<char>
    decreases tree, 1nat,
{
    node_line(tree.value, prefix, is_last) + concat(children_texts(tree, prefix, is_last))
}

/// The drawings of the children of `tree`, where `tree` itself is drawn
/// under `prefix`.
pub open spec fn children_texts(tree: Tree, prefix: Seq<char>, is_last: bool) -> Seq<Seq<char>>
    decreases tree, 0nat,
{
    Seq::new(
        tree.children.len(),
        |i: int|
            if 0 <= i < tree.children.len() {
                tree_text(tree.children[i], prefix + rail(is_last), i == tree.children.len() - 1)
            } else {
                Seq::empty()
            },
    )
}

fn write_tree(node: &TreeNode, prefix: &Vec<char>, is_last: bool, out: &mut Vec<char>)
    ensures
        final(out)@ == old(out)@ + tree_text(node@, prefix@, is_last),
    decreases node,
{
    let ghost below = children_texts(node@, prefix@, is_last);
    let ghost head = node_line(node@.value, prefix@, is_last);
    if prefix.len() > 0 {
        extend(out, prefix);
        let glyph = chars_of(if is_last {
            "└── "
        } else {
            "├── "
        });
        extend(out, &glyph);
    }
    let value = chars_of(node.value.as_str());
    let shown = trimmed(&value);
    extend(out, &shown);
    out.push('\n');
    proof {
        assert(out@ =~= old(out)@ + head);
    }
    let mut deeper: Vec<char> = Vec::new();
    extend(&mut deeper, prefix);
    let gap = chars_of(if is_last {
        "    "
    } else {
        "│   "
    });
    extend(&mut deeper, &gap);
    let n = node.children.len();
    let mut i: usize = 0;
    while i < n
        invariant
            i <= n,
            n == node.children.len(),
            n == node@.children.len(),
            deeper@ == prefix@ + rail(is_last),
            below.len() == n,
            forall|k: int| 0 <= k < n ==> #[trigger] below[k] == tree_text(node.children[k]@, deeper@, k == n - 1),
            out@ == old(out)@ + head + concat(below.take(i as int)),
        decreases n - i,
    {
        let ghost before = out@;
        write_tree(&node.children[i], &deeper, i == n - 1, out);
        proof {
            assert(below.take(i + 1).drop_last() =~= below.take(i as int));
            assert(out@ =~= old(out)@ + head + concat(below.take(i + 1)));
        }
        i += 1;
    }
    proof {
        assert(below.take(n as int) =~= below);
    }
}

/// Draws `node` and what is below it under `prefix`; `is_last` says
/// whether it is the last child of its parent.
pub fn generate_tree_string(node: &TreeNode, prefix: String, is_last: bool) -> (out: String)
    ensures
        out@ == tree_text(node@, prefix@, is_last),
{
    let lead = chars_of(prefix.as_str());
    let mut drawn: Vec<char> = Vec::new();
    write_tree(node, &lead, is_last, &mut drawn);
    proof {
        assert(drawn@ =~= tree_text(node@, prefix@, is_last));
    }
    string_of(&drawn)
}

/// The drawing that a tree directive renders to: the hierarchy of its
/// bullet lines, drawn from the root with an empty prefix.
pub open spec fn tree_block(buffer: Seq<Seq<char>>) -> Seq<char> {
    tree_text(bullet_tree(content_lines(buffer)), Seq::empty(), true)
}

/// Renders a tree directive. The buffer ends with the directive's end
/// marker, which is taken off; the lines before it are the bullet list.
pub fn render_tree(directives: &mut Vec<String>) -> (out: String)
    ensures
        final(directives)@ == if old(directives)@.len() > 0 {
            old(directives)@.drop_last()
        } else {
            old(directives)@
        },
        out@ == tree_block(texts(old(directives)@)),
{
    let _ = directives.pop();
    let lines = as_strs(directives);
    proof {
        assert(texts(directives@) =~= content_lines(texts(old(directives)@)));
    }
    let tree = parse_bullet_points(lines.as_slice());
    generate_tree_string(&tree, String::new(), true)
}

/// The drawing of a tree directive begins with the dot of its root.
pub proof fn lemma_tree_block_begins(buffer: Seq<Seq<char>>)
    ensures
        tree_block(buffer).len() > 0,
        tree_block(buffer)[0] == '.',
{
    let dot = seq!['.'];
    assert(run_len(dot, CharClass::Blank) == 0);
    assert(trim_start(dot) =~= dot);
    assert(back_run_len(dot, CharClass::Blank) == 0);
    assert(trim(dot) =~= dot);
    let root = bullet_tree(content_lines(buffer));
    assert(node_line(root.value, Seq::empty(), true)[0] == '.');
}

} // verus!
