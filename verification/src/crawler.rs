//! Bottom-up size aggregation and threshold filtering over a filesystem
//! snapshot.

use vstd::prelude::*;

verus! {

/// One entry of a filesystem snapshot, as the walking layer hands it in.
/// `size` is the byte length read for a file; a directory's bytes live in
/// its descendants, and `children` holds its entries in listing order.
/// Entries that could not be read are simply absent from the snapshot.
#[derive(Debug, PartialEq)]
pub struct FsEntry {
    pub is_dir: bool,
    pub path: String,
    pub size: u64,
    pub children: Vec<FsEntry>,
}

/// One node of the aggregated tree: `size` counts every descendant of the
/// full snapshot, while `children` keeps only those whose own size reaches
/// the threshold.
#[derive(Debug, PartialEq)]
pub struct DirTree {
    pub is_dir: bool,
    pub path: String,
    pub size: u64,
    pub children: Vec<DirTree>,
}

/// The mathematical shape shared by snapshot entries and aggregated nodes.
#[verifier::ext_equal]
pub ghost struct NodeModel {
    pub is_dir: bool,
    pub path: Seq<char>,
    pub size: u64,
    pub children: Seq<NodeModel>,
}

pub open spec fn entry_model(n: FsEntry) -> NodeModel
    decreases n,
{
    NodeModel {
        is_dir: n.is_dir,
        path: n.path@,
        size: n.size,
        children: entry_models(n.children@),
    }
}

pub open spec fn entry_models(s: Seq<FsEntry>) -> Seq<NodeModel>
    decreases s,
{
    if s.len() == 0 {
        Seq::empty()
    } else {
        entry_models(s.drop_last()).push(entry_model(s.last()))
    }
}

pub open spec fn tree_model(n: DirTree) -> NodeModel
    decreases n,
{
    NodeModel {
        is_dir: n.is_dir,
        path: n.path@,
        size: n.size,
        children: tree_models(n.children@),
    }
}

pub open spec fn tree_models(s: Seq<DirTree>) -> Seq<NodeModel>
    decreases s,
{
    if s.len() == 0 {
        Seq::empty()
    } else {
        tree_models(s.drop_last()).push(tree_model(s.last()))
    }
}

impl View for FsEntry {
    type V = NodeModel;

    open spec fn view(&self) -> NodeModel {
        entry_model(*self)
    }
}

impl View for DirTree {
    type V = NodeModel;

    open spec fn view(&self) -> NodeModel {
        tree_model(*self)
    }
}

/// Total byte count of a node's full subtree: a file's own length, or the
/// sum over all of a directory's children, before any filtering.
pub open spec fn total_size(n: NodeModel) -> int
    decreases n,
{
    if n.is_dir {
        forest_total(n.children)
    } else {
        n.size as int
    }
}

pub open spec fn forest_total(s: Seq<NodeModel>) -> int
    decreases s,
{
    if s.len() == 0 {
        0
    } else {
        forest_total(s.drop_last()) + total_size(s.last())
    }
}

/// The nodes of a forest whose size reaches the threshold, in order
/// (the comparison is inclusive).
pub open spec fn filter_big(s: Seq<NodeModel>, threshold: u64) -> Seq<NodeModel> {
    s.filter(|m: NodeModel| m.size >= threshold)
}

/// The aggregated node for one snapshot node: its size is the total of the
/// full subtree, its children are aggregated and then filtered — the size
/// is fixed before the filter touches the child list.
pub open spec fn aggregate_node(n: NodeModel, threshold: u64) -> NodeModel
    decreases n,
{
    if n.is_dir {
        NodeModel {
            is_dir: true,
            path: n.path,
            size: forest_total(n.children) as u64,
            children: filter_big(aggregate_forest(n.children, threshold), threshold),
        }
    } else {
        NodeModel { is_dir: false, path: n.path, size: n.size, children: Seq::empty() }
    }
}

pub open spec fn aggregate_forest(s: Seq<NodeModel>, threshold: u64) -> Seq<NodeModel>
    decreases s,
{
    if s.len() == 0 {
        Seq::empty()
    } else {
        aggregate_forest(s.drop_last(), threshold).push(aggregate_node(s.last(), threshold))
    }
}

/// Sum of the stored sizes of a forest's roots.
pub open spec fn sizes_sum(s: Seq<NodeModel>) -> int
    decreases s,
{
    if s.len() == 0 {
        0
    } else {
        sizes_sum(s.drop_last()) + s.last().size
    }
}

pub proof fn lemma_total_nonneg(n: NodeModel)
    ensures
        total_size(n) >= 0,
    decreases n,
{
    if n.is_dir {
        lemma_forest_nonneg(n.children);
    }
}

pub proof fn lemma_forest_nonneg(s: Seq<NodeModel>)
    ensures
        forest_total(s) >= 0,
    decreases s,
{
    if s.len() > 0 {
        lemma_forest_nonneg(s.drop_last());
        lemma_total_nonneg(s.last());
    }
}

pub proof fn lemma_forest_total_concat(a: Seq<NodeModel>, b: Seq<NodeModel>)
    ensures
        forest_total(a + b) == forest_total(a) + forest_total(b),
    decreases b,
{
    if b.len() == 0 {
        assert(a + b =~= a);
    } else {
        lemma_forest_total_concat(a, b.drop_last());
        assert((a + b).drop_last() =~= a + b.drop_last());
        assert((a + b).last() == b.last());
    }
}

/// One root's total never exceeds the forest's total.
pub proof fn lemma_forest_total_element(s: Seq<NodeModel>, i: int)
    requires
        0 <= i < s.len(),
    ensures
        total_size(s[i]) <= forest_total(s),
    decreases s,
{
    if i == s.len() - 1 {
        lemma_forest_nonneg(s.drop_last());
    } else {
        lemma_forest_total_element(s.drop_last(), i);
        lemma_total_nonneg(s.last());
    }
}

pub proof fn lemma_sizes_sum_concat(a: Seq<NodeModel>, b: Seq<NodeModel>)
    ensures
        sizes_sum(a + b) == sizes_sum(a) + sizes_sum(b),
    decreases b,
{
    if b.len() == 0 {
        assert(a + b =~= a);
    } else {
        lemma_sizes_sum_concat(a, b.drop_last());
        assert((a + b).drop_last() =~= a + b.drop_last());
        assert((a + b).last() == b.last());
    }
}

pub proof fn lemma_sizes_sum_nonneg(s: Seq<NodeModel>)
    ensures
        sizes_sum(s) >= 0,
    decreases s,
{
    if s.len() > 0 {
        lemma_sizes_sum_nonneg(s.drop_last());
    }
}

/// Aggregating keeps the grand total: the stored sizes of the aggregated
/// roots add up to the snapshot forest's total.
pub proof fn lemma_aggregate_sizes_sum(s: Seq<NodeModel>, threshold: u64)
    requires
        forest_total(s) <= u64::MAX,
    ensures
        sizes_sum(aggregate_forest(s, threshold)) == forest_total(s),
    decreases s,
{
    if s.len() > 0 {
        lemma_forest_nonneg(s.drop_last());
        lemma_total_nonneg(s.last());
        assert(forest_total(s) == forest_total(s.drop_last()) + total_size(s.last()));
        lemma_aggregate_sizes_sum(s.drop_last(), threshold);
        let agg = aggregate_forest(s, threshold);
        assert(agg == aggregate_forest(s.drop_last(), threshold).push(
            aggregate_node(s.last(), threshold),
        ));
        assert(agg.drop_last() =~= aggregate_forest(s.drop_last(), threshold));
        assert(agg.last() == aggregate_node(s.last(), threshold));
        assert(0 <= total_size(s.last()) <= u64::MAX);
        if s.last().is_dir {
            assert(aggregate_node(s.last(), threshold).size == forest_total(s.last().children) as u64);
            assert(total_size(s.last()) == forest_total(s.last().children));
        } else {
            assert(aggregate_node(s.last(), threshold).size == s.last().size);
        }
        assert(agg.last().size == total_size(s.last()));
        assert(sizes_sum(agg) == sizes_sum(agg.drop_last()) + agg.last().size);
    }
}

pub proof fn lemma_entry_models_props(s: Seq<FsEntry>)
    ensures
        entry_models(s).len() == s.len(),
        forall|i: int| 0 <= i < s.len() ==> entry_models(s)[i] == entry_model(s[i]),
    decreases s,
{
    if s.len() > 0 {
        lemma_entry_models_props(s.drop_last());
    }
}

pub proof fn lemma_tree_models_props(s: Seq<DirTree>)
    ensures
        tree_models(s).len() == s.len(),
        forall|i: int| 0 <= i < s.len() ==> tree_models(s)[i] == tree_model(s[i]),
    decreases s,
{
    if s.len() > 0 {
        lemma_tree_models_props(s.drop_last());
    }
}

pub proof fn lemma_tree_models_push(s: Seq<DirTree>, d: DirTree)
    ensures
        tree_models(s.push(d)) == tree_models(s).push(tree_model(d)),
{
    assert(s.push(d).drop_last() =~= s);
    assert(s.push(d).last() == d);
}

pub proof fn lemma_filter_big_push(s: Seq<NodeModel>, e: NodeModel, threshold: u64)
    ensures
        e.size >= threshold ==> filter_big(s.push(e), threshold) == filter_big(s, threshold).push(e),
        e.size < threshold ==> filter_big(s.push(e), threshold) == filter_big(s, threshold),
{
    reveal(Seq::filter);
    assert(s.push(e).drop_last() =~= s);
    assert(s.push(e).last() == e);
}

/// Every node a filter keeps reaches the threshold.
pub proof fn lemma_filter_big_members(s: Seq<NodeModel>, threshold: u64)
    ensures
        forall|i: int|
            0 <= i < filter_big(s, threshold).len() ==> #[trigger] filter_big(
                s,
                threshold,
            )[i].size >= threshold,
    decreases s.len(),
{
    reveal(Seq::filter);
    if s.len() > 0 {
        lemma_filter_big_members(s.drop_last(), threshold);
        lemma_filter_big_push(s.drop_last(), s.last(), threshold);
        assert(s.drop_last().push(s.last()) =~= s);
    }
}

/// Aggregation correctness: a node's aggregated size is the total of its
/// full subtree — for a directory, the sum of its children's aggregated
/// sizes — and no threshold changes it.
pub proof fn lemma_aggregate_size(n: NodeModel, t1: u64, t2: u64)
    requires
        total_size(n) <= u64::MAX,
    ensures
        aggregate_node(n, t1).size == total_size(n),
        aggregate_node(n, t1).size == aggregate_node(n, t2).size,
        n.is_dir ==> aggregate_node(n, t1).size == sizes_sum(aggregate_forest(n.children, t1)),
{
    lemma_total_nonneg(n);
    if n.is_dir {
        lemma_aggregate_sizes_sum(n.children, t1);
    }
}

/// Filter decoupling: a directory's reported size still counts the
/// children below the threshold, even though its stored child list keeps
/// only those at or above it.
pub proof fn lemma_filter_decoupling(n: NodeModel, threshold: u64)
    requires
        n.is_dir,
        total_size(n) <= u64::MAX,
    ensures
        aggregate_node(n, threshold).size == forest_total(n.children),
        aggregate_node(n, threshold).children == filter_big(
            aggregate_forest(n.children, threshold),
            threshold,
        ),
        forall|i: int|
            0 <= i < aggregate_node(n, threshold).children.len() ==> #[trigger] aggregate_node(
                n,
                threshold,
            ).children[i].size >= threshold,
{
    lemma_forest_nonneg(n.children);
    lemma_filter_big_members(aggregate_forest(n.children, threshold), threshold);
}

/// Threshold boundary: an entry whose size equals the threshold exactly is
/// kept by the filter, not dropped.
pub proof fn lemma_threshold_inclusive(s: Seq<NodeModel>, threshold: u64, i: int)
    requires
        0 <= i < s.len(),
        s[i].size >= threshold,
    ensures
        filter_big(s, threshold).contains(s[i]),
    decreases s.len(),
{
    lemma_filter_big_push(s.drop_last(), s.last(), threshold);
    assert(s.drop_last().push(s.last()) =~= s);
    if i == s.len() - 1 {
        if s.last().size >= threshold {
            let fb = filter_big(s, threshold);
            assert(fb[fb.len() - 1] == s[i]);
        }
    } else {
        lemma_threshold_inclusive(s.drop_last(), threshold, i);
        let fd = filter_big(s.drop_last(), threshold);
        let j = choose|j: int| 0 <= j < fd.len() && fd[j] == s.drop_last()[i];
        assert(filter_big(s, threshold)[j] == s[i]);
    }
}

/// Aggregation is a pure function of the snapshot: two runs over the same
/// snapshot return the same tree, sizes and retained children alike.
pub proof fn lemma_aggregation_repeatable(a: Seq<NodeModel>, b: Seq<NodeModel>, threshold: u64)
    requires
        a == b,
    ensures
        filter_big(aggregate_forest(a, threshold), threshold) == filter_big(
            aggregate_forest(b, threshold),
            threshold,
        ),
{
}

pub proof fn lemma_aggregate_forest_concat(a: Seq<NodeModel>, b: Seq<NodeModel>, threshold: u64)
    ensures
        aggregate_forest(a + b, threshold) == aggregate_forest(a, threshold) + aggregate_forest(
            b,
            threshold,
        ),
    decreases b,
{
    if b.len() == 0 {
        assert(a + b =~= a);
        assert(aggregate_forest(a, threshold) + aggregate_forest(b, threshold) =~= aggregate_forest(
            a,
            threshold,
        ));
    } else {
        lemma_aggregate_forest_concat(a, b.drop_last(), threshold);
        assert((a + b).drop_last() =~= a + b.drop_last());
        assert((a + b).last() == b.last());
        assert(aggregate_forest(a, threshold) + aggregate_forest(b, threshold) =~= (aggregate_forest(
            a,
            threshold,
        ) + aggregate_forest(b.drop_last(), threshold)).push(
            aggregate_node(b.last(), threshold),
        ));
    }
}

/// Resilience: a sibling that is absent from the snapshot (for instance
/// because it could not be read) leaves the aggregation of the remaining
/// siblings exactly as it was, and the parent's total simply lacks its
/// contribution.
pub proof fn lemma_sibling_independence(a: Seq<NodeModel>, b: Seq<NodeModel>, threshold: u64)
    ensures
        aggregate_forest(a + b, threshold) == aggregate_forest(a, threshold) + aggregate_forest(
            b,
            threshold,
        ),
        forest_total(a + b) == forest_total(a) + forest_total(b),
{
    lemma_aggregate_forest_concat(a, b, threshold);
    lemma_forest_total_concat(a, b);
}

/// The crawler: aggregates a snapshot bottom-up and filters the result
/// against its threshold.
#[derive(Debug, PartialEq, Clone)]
pub struct Crawler {
    threshold_bytes: u64,
}

impl Crawler {
    /// The minimum size (inclusive) an entry must reach to be kept.
    pub closed spec fn threshold(&self) -> u64 {
        self.threshold_bytes
    }

    pub fn new(threshold_bytes: u64) -> (r: Self)
        ensures
            r.threshold() == threshold_bytes,
    {
        Self { threshold_bytes }
    }

    /// Aggregates a snapshot forest and keeps only the roots whose full
    /// subtree size reaches the threshold. Directory sizes inside the
    /// result still count every snapshot descendant, filtered or not.
    pub fn walk(&self, entries: &Vec<FsEntry>) -> (r: Vec<DirTree>)
        requires
            forest_total(entry_models(entries@)) <= u64::MAX,
        ensures
            tree_models(r@) == filter_big(
                aggregate_forest(entry_models(entries@), self.threshold()),
                self.threshold(),
            ),
    {
        let unfiltered = self.dir_entry(entries);
        self.keep_big(unfiltered)
    }

    /// Aggregates every entry of one directory listing, unfiltered.
    fn dir_entry(&self, entries: &Vec<FsEntry>) -> (r: Vec<DirTree>)
        requires
            forest_total(entry_models(entries@)) <= u64::MAX,
        ensures
            tree_models(r@) == aggregate_forest(entry_models(entries@), self.threshold()),
        decreases entries,
    {
        let ghost em = entry_models(entries@);
        proof {
            lemma_entry_models_props(entries@);
        }
        let mut out: Vec<DirTree> = Vec::new();
        let mut i: usize = 0;
        while i < entries.len()
            invariant
                i <= entries.len(),
                em == entry_models(entries@),
                em.len() == entries@.len(),
                forall|k: int| 0 <= k < entries@.len() ==> em[k] == entry_model(entries@[k]),
                forest_total(em) <= u64::MAX,
                tree_models(out@) == aggregate_forest(em.subrange(0, i as int), self.threshold()),
            decreases entries@.len() - i,
        {
            proof {
                lemma_forest_total_element(em, i as int);
            }
            let node = self.walk_entry(&entries[i]);
            proof {
                lemma_tree_models_push(out@, node);
                assert(em.subrange(0, i + 1) =~= em.subrange(0, i as int).push(em[i as int]));
                assert(em.subrange(0, i + 1).drop_last() =~= em.subrange(0, i as int));
            }
            out.push(node);
            i += 1;
        }
        proof {
            assert(em.subrange(0, entries@.len() as int) =~= em);
        }
        out
    }

    /// Builds the aggregated node for one snapshot entry: children first,
    /// then this entry's own size from the unfiltered child list, then the
    /// filtered child list.
    fn walk_entry(&self, entry: &FsEntry) -> (r: DirTree)
        requires
            total_size(entry@) <= u64::MAX,
        ensures
            tree_model(r) == aggregate_node(entry@, self.threshold()),
        decreases entry,
    {
        if entry.is_dir {
            let children = self.dir_entry(&entry.children);
            let ghost cm = entry_models(entry.children@);
            let ghost am = aggregate_forest(cm, self.threshold());
            proof {
                lemma_aggregate_sizes_sum(cm, self.threshold());
                lemma_tree_models_props(children@);
            }
            let mut size: u64 = 0;
            let mut i: usize = 0;
            while i < children.len()
                invariant
                    i <= children.len(),
                    tree_models(children@) == am,
                    am.len() == children@.len(),
                    forall|k: int| 0 <= k < children@.len() ==> am[k] == tree_model(children@[k]),
                    sizes_sum(am) == forest_total(cm) <= u64::MAX,
                    size == sizes_sum(am.subrange(0, i as int)),
                decreases children@.len() - i,
            {
                proof {
                    assert(am.subrange(0, i + 1) =~= am.subrange(0, i as int).push(am[i as int]));
                    assert(am.subrange(0, i + 1).drop_last() =~= am.subrange(0, i as int));
                    assert(am =~= am.subrange(0, i + 1) + am.subrange(i + 1, am.len() as int));
                    lemma_sizes_sum_concat(am.subrange(0, i + 1), am.subrange(i + 1, am.len() as int));
                    lemma_sizes_sum_nonneg(am.subrange(i + 1, am.len() as int));
                    lemma_forest_nonneg(cm);
                    lemma_sizes_sum_nonneg(am.subrange(0, i as int));
                }
                size = size + children[i].size;
                i += 1;
            }
            proof {
                assert(am.subrange(0, children@.len() as int) =~= am);
            }
            let filtered = self.keep_big(children);
            let r = DirTree { is_dir: true, path: entry.path.clone(), size, children: filtered };
            proof {
                assert(tree_model(r) =~= aggregate_node(entry@, self.threshold()));
            }
            r
        } else {
            let r = DirTree {
                is_dir: false,
                path: entry.path.clone(),
                size: entry.size,
                children: Vec::new(),
            };
            proof {
                assert(tree_model(r) =~= aggregate_node(entry@, self.threshold()));
            }
            r
        }
    }

    /// Keeps the nodes whose size reaches the threshold, in order.
    fn keep_big(&self, v: Vec<DirTree>) -> (r: Vec<DirTree>)
        ensures
            tree_models(r@) == filter_big(tree_models(v@), self.threshold()),
    {
        let ghost orig: Seq<DirTree> = v@;
        proof {
            lemma_tree_models_props(orig);
        }
        let mut v = v;
        let mut out: Vec<DirTree> = Vec::new();
        let ghost mut j: int = 0;
        while v.len() > 0
            invariant
                0 <= j <= orig.len(),
                v@ == orig.subrange(j, orig.len() as int),
                forall|k: int| 0 <= k < orig.len() ==> tree_models(orig)[k] == tree_model(orig[k]),
                tree_models(orig).len() == orig.len(),
                tree_models(out@) == filter_big(
                    tree_models(orig.subrange(0, j)),
                    self.threshold(),
                ),
            decreases v@.len(),
        {
            let d = v.remove(0);
            proof {
                assert(d == orig[j]);
                assert(orig.subrange(j, orig.len() as int).remove(0) =~= orig.subrange(
                    j + 1,
                    orig.len() as int,
                ));
                assert(orig.subrange(0, j + 1) =~= orig.subrange(0, j).push(orig[j]));
                lemma_tree_models_push(orig.subrange(0, j), orig[j]);
                lemma_filter_big_push(
                    tree_models(orig.subrange(0, j)),
                    tree_model(orig[j]),
                    self.threshold(),
                );
            }
            if d.size >= self.threshold_bytes {
                proof {
                    lemma_tree_models_push(out@, d);
                }
                out.push(d);
            }
            proof {
                j = j + 1;
            }
        }
        proof {
            assert(orig.subrange(0, orig.len() as int) =~= orig);
        }
        out
    }
}

} // verus!


