//! Depth-indented text rendering of the aggregated tree.
//!
//! Each node becomes one line: one tab per nesting level, the entry's name
//! (the final path component), a space, and its size in the display unit.

use vstd::prelude::*;
use vstd::string::*;
use crate::crawler::{DirTree, NodeModel, tree_model, tree_models, lemma_tree_models_props};
use crate::size::{SizeUnit, size_chars, format_size};

verus! {

/// d tab characters.
pub open spec fn tabs(d: int) -> Seq<char>
    decreases d,
{
    if d <= 0 {
        Seq::empty()
    } else {
        tabs(d - 1).push('\t')
    }
}

/// The final path component: everything after the last '/'.
pub open spec fn basename(p: Seq<char>) -> Seq<char>
    decreases p.len(),
{
    if p.len() == 0 {
        p
    } else if p.last() == '/' {
        Seq::empty()
    } else {
        basename(p.drop_last()).push(p.last())
    }
}

/// The line for a node rendered at depth d.
pub open spec fn render_line(m: NodeModel, d: int, unit: SizeUnit) -> Seq<char> {
    tabs(d) + basename(m.path) + seq![' '] + size_chars(m.size as int, unit)
}

/// The pre-order lines of one subtree whose root sits at depth d.
pub open spec fn render_node(m: NodeModel, d: int, unit: SizeUnit) -> Seq<Seq<char>>
    decreases m,
{
    seq![render_line(m, d, unit)] + render_forest(m.children, d + 1, unit)
}

pub open spec fn render_forest(s: Seq<NodeModel>, d: int, unit: SizeUnit) -> Seq<Seq<char>>
    decreases s,
{
    if s.len() == 0 {
        Seq::empty()
    } else {
        render_forest(s.drop_last(), d, unit) + render_node(s.last(), d, unit)
    }
}

/// Nesting depth of a subtree: 1 for a leaf.
pub open spec fn height(m: NodeModel) -> int
    decreases m,
{
    1 + forest_height(m.children)
}

pub open spec fn forest_height(s: Seq<NodeModel>) -> int
    decreases s,
{
    if s.len() == 0 {
        0
    } else {
        let rest = forest_height(s.drop_last());
        let h = height(s.last());
        if h > rest {
            h
        } else {
            rest
        }
    }
}

pub proof fn lemma_forest_height_nonneg(s: Seq<NodeModel>)
    ensures
        forest_height(s) >= 0,
    decreases s,
{
    if s.len() > 0 {
        lemma_forest_height_nonneg(s.drop_last());
    }
}

pub proof fn lemma_forest_height_element(s: Seq<NodeModel>, i: int)
    requires
        0 <= i < s.len(),
    ensures
        height(s[i]) <= forest_height(s),
    decreases s,
{
    if i < s.len() - 1 {
        lemma_forest_height_element(s.drop_last(), i);
    }
}

/// The character sequences of a list of lines.
pub open spec fn line_models(s: Seq<String>) -> Seq<Seq<char>>
    decreases s,
{
    if s.len() == 0 {
        Seq::empty()
    } else {
        line_models(s.drop_last()).push(s.last()@)
    }
}

pub proof fn lemma_line_models_push(s: Seq<String>, x: String)
    ensures
        line_models(s.push(x)) == line_models(s).push(x@),
{
    assert(s.push(x).drop_last() =~= s);
}

pub proof fn lemma_line_models_concat(a: Seq<String>, b: Seq<String>)
    ensures
        line_models(a + b) == line_models(a) + line_models(b),
    decreases b,
{
    if b.len() == 0 {
        assert(a + b =~= a);
        assert(line_models(a) + line_models(b) =~= line_models(a));
    } else {
        lemma_line_models_concat(a, b.drop_last());
        assert((a + b).drop_last() =~= a + b.drop_last());
        assert((a + b).last() == b.last());
        assert(line_models(a) + line_models(b) =~= (line_models(a) + line_models(
            b.drop_last(),
        )).push(b.last()@));
    }
}

/// A suffix that contains no separator and starts right after one (or at
/// the front) is the basename.
proof fn lemma_basename_suffix(p: Seq<char>, k: int)
    requires
        0 <= k <= p.len(),
        forall|j: int| k <= j < p.len() ==> p[j] != '/',
        k == 0 || p[k - 1] == '/',
    ensures
        basename(p) == p.subrange(k, p.len() as int),
    decreases p.len(),
{
    if p.len() == k {
        if k == 0 {
            assert(basename(p) =~= p.subrange(k, p.len() as int));
        } else {
            assert(p.last() == '/');
            assert(basename(p) =~= p.subrange(k, p.len() as int));
        }
    } else {
        assert(p.last() != '/');
        let q = p.drop_last();
        lemma_basename_suffix(q, k);
        assert(q.subrange(k, q.len() as int).push(p.last()) =~= p.subrange(k, p.len() as int));
    }
}

/// The entry name shown for a path: its final '/'-separated component.
pub fn basename_of(path: &str) -> (r: &str)
    ensures
        r@ == basename(path@),
{
    let n = path.unicode_len();
    let mut start: usize = 0;
    let mut i: usize = 0;
    while i < n
        invariant
            0 <= start <= i <= n,
            n == path@.len(),
            forall|j: int| start <= j < i ==> path@[j] != '/',
            start == 0 || path@[start - 1] == '/',
        decreases n - i,
    {
        if path.get_char(i) == '/' {
            start = i + 1;
        }
        i += 1;
    }
    let r = path.substring_char(start, n);
    proof {
        lemma_basename_suffix(path@, start as int);
    }
    r
}

/// Renders an aggregated forest as indented text lines.
pub struct TreeRenderer {
    unit: SizeUnit,
}

impl TreeRenderer {
    /// The unit every size is displayed in.
    pub closed spec fn display_unit(&self) -> SizeUnit {
        self.unit
    }

    pub fn new(unit: SizeUnit) -> (r: Self)
        ensures
            r.display_unit() == unit,
    {
        Self { unit }
    }

    /// All lines for a forest of root-level trees, in pre-order.
    pub fn render_tree(&self, forest: &Vec<DirTree>) -> (r: Vec<String>)
        requires
            forest_height(tree_models(forest@)) <= u32::MAX,
        ensures
            line_models(r@) == render_forest(tree_models(forest@), 0, self.display_unit()),
    {
        let ghost fm = tree_models(forest@);
        proof {
            lemma_tree_models_props(forest@);
        }
        let mut out: Vec<String> = Vec::new();
        let mut i: usize = 0;
        while i < forest.len()
            invariant
                i <= forest.len(),
                fm == tree_models(forest@),
                fm.len() == forest@.len(),
                forall|k: int| 0 <= k < forest@.len() ==> fm[k] == tree_model(forest@[k]),
                forest_height(fm) <= u32::MAX,
                line_models(out@) == render_forest(fm.subrange(0, i as int), 0, self.display_unit()),
            decreases forest@.len() - i,
        {
            proof {
                lemma_forest_height_element(fm, i as int);
                lemma_forest_height_nonneg(tree_model(forest@[i as int]).children);
            }
            let mut sub = self.render_tree_recursion(0, &forest[i]);
            proof {
                lemma_line_models_concat(out@, sub@);
                assert(fm.subrange(0, i + 1) =~= fm.subrange(0, i as int).push(fm[i as int]));
                assert(fm.subrange(0, i + 1).drop_last() =~= fm.subrange(0, i as int));
            }
            out.append(&mut sub);
            i += 1;
        }
        proof {
            assert(fm.subrange(0, fm.len() as int) =~= fm);
        }
        out
    }

    /// The lines of one subtree whose root sits at the given nesting level.
    pub fn render_tree_recursion(&self, level: u32, tree: &DirTree) -> (r: Vec<String>)
        requires
            level + height(tree@) <= u32::MAX,
        ensures
            line_models(r@) == render_node(tree@, level as int, self.display_unit()),
        decreases tree,
    {
        let mut out: Vec<String> = Vec::new();
        let first = self.render_record(level, tree);
        proof {
            lemma_line_models_push(out@, first);
        }
        out.push(first);
        let ghost cm = tree@.children;
        proof {
            lemma_tree_models_props(tree.children@);
            lemma_forest_height_nonneg(cm);
        }
        let mut i: usize = 0;
        while i < tree.children.len()
            invariant
                i <= tree.children.len(),
                cm == tree_models(tree.children@),
                cm.len() == tree.children@.len(),
                forall|k: int| 0 <= k < tree.children@.len() ==> cm[k] == tree_model(
                    tree.children@[k],
                ),
                level + height(tree@) <= u32::MAX,
                line_models(out@) == seq![
                    render_line(tree@, level as int, self.display_unit()),
                ] + render_forest(cm.subrange(0, i as int), level as int + 1, self.display_unit()),
            decreases tree.children@.len() - i,
        {
            proof {
                lemma_forest_height_element(cm, i as int);
                lemma_forest_height_nonneg(cm[i as int].children);
            }
            let mut sub = self.render_tree_recursion(level + 1, &tree.children[i]);
            proof {
                lemma_line_models_concat(out@, sub@);
                assert(cm.subrange(0, i + 1) =~= cm.subrange(0, i as int).push(cm[i as int]));
                assert(cm.subrange(0, i + 1).drop_last() =~= cm.subrange(0, i as int));
            }
            out.append(&mut sub);
            i += 1;
        }
        proof {
            assert(cm.subrange(0, cm.len() as int) =~= cm);
        }
        out
    }

    /// One line: level tabs, the entry's name, a space, the size text.
    pub fn render_record(&self, level: u32, record: &DirTree) -> (r: String)
        ensures
            r@ == render_line(record@, level as int, self.display_unit()),
    {
        let mut line = String::new();
        proof {
            assert(line@ =~= tabs(0));
        }
        let mut i: u32 = 0;
        while i < level
            invariant
                i <= level,
                line@ == tabs(i as int),
            decreases level - i,
        {
            proof {
                reveal_strlit("\t");
                assert("\t"@ =~= seq!['\t']);
                assert(line@ + "\t"@ =~= tabs(i as int + 1));
            }
            line.append("\t");
            i += 1;
        }
        let name = basename_of(record.path.as_str());
        line.append(name);
        proof {
            reveal_strlit(" ");
            assert(" "@ =~= seq![' ']);
        }
        line.append(" ");
        let sz = format_size(record.size, self.unit);
        line.append(sz.as_str());
        proof {
            assert(line@ =~= render_line(record@, level as int, self.unit));
        }
        line
    }
}

/// An indentation prefix is exactly d tab characters.
pub proof fn lemma_tabs(d: int)
    requires
        d >= 0,
    ensures
        tabs(d).len() == d,
        forall|j: int| 0 <= j < d ==> tabs(d)[j] == '\t',
    decreases d,
{
    if d > 0 {
        lemma_tabs(d - 1);
    }
}

/// Rendering depth: a node rendered at depth d gets its depth-0 line
/// prefixed with d tabs, and its children are rendered one level deeper.
pub proof fn lemma_render_depth(m: NodeModel, d: int, unit: SizeUnit)
    requires
        d >= 0,
    ensures
        render_node(m, d, unit).len() >= 1,
        render_node(m, d, unit)[0] == render_line(m, d, unit),
        render_line(m, d, unit) == tabs(d) + render_line(m, 0, unit),
        render_node(m, d, unit) == seq![render_line(m, d, unit)] + render_forest(
            m.children,
            d + 1,
            unit,
        ),
{
    assert(tabs(0) =~= Seq::<char>::empty());
    assert(tabs(d) + render_line(m, 0, unit) =~= render_line(m, d, unit));
}

} // verus!
