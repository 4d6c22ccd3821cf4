//! The project tree's visible rows: a depth-first walk of the scanned tree in which a directory's children
//! show only while it is expanded.

use vstd::prelude::*;

verus! {

/// A scanned file or directory, with the directory's children.
pub struct FileNode {
    pub name: String,
    pub path: String,
    pub is_dir: bool,
    pub children: Vec<FileNode>,
}

/// One visible row of the tree.
#[derive(Clone, Debug, PartialEq, Eq)]
pub struct TreeRow {
    pub name: String,
    pub path: String,
    pub is_dir: bool,
    pub depth: usize,
    /// An expanded directory.
    pub open: bool,
    /// Being renamed in place.
    pub edit: bool,
}

pub struct TreeRowView {
    pub name: Seq<char>,
    pub path: Seq<char>,
    pub is_dir: bool,
    pub depth: nat,
    pub open: bool,
    pub edit: bool,
}

impl View for TreeRow {
    type V = TreeRowView;

    open spec fn view(&self) -> TreeRowView {
        TreeRowView {
            name: self.name@,
            path: self.path@,
            is_dir: self.is_dir,
            depth: self.depth as nat,
            open: self.open,
            edit: self.edit,
        }
    }
}

pub open spec fn rows_view(rows: Seq<TreeRow>) -> Seq<TreeRowView> {
    rows.map_values(|r: TreeRow| r@)
}

pub open spec fn paths_view(paths: Seq<String>) -> Seq<Seq<char>> {
    paths.map_values(|p: String| p@)
}

/// The node is a directory whose path is among the expanded ones.
pub open spec fn is_open(n: FileNode, expanded: Seq<Seq<char>>) -> bool {
    n.is_dir && expanded.contains(n.path@)
}

/// How deep the tree goes below `nodes`, counting them.
pub open spec fn height(nodes: Seq<FileNode>) -> nat
    decreases nodes,
{
    if nodes.len() == 0 {
        0
    } else {
        let last = nodes.last();
        let below = 1 + height(last.children@);
        let rest = height(nodes.drop_last());
        if below > rest {
            below
        } else {
            rest
        }
    }
}

/// The rows `nodes` show at `depth`: each node, then, when it is an open directory, its children's rows one
/// level deeper.
pub open spec fn visible_rows(nodes: Seq<FileNode>, depth: nat, expanded: Seq<Seq<char>>) -> Seq<TreeRowView>
    decreases nodes,
{
    if nodes.len() == 0 {
        Seq::empty()
    } else {
        let n = nodes.last();
        let open = is_open(n, expanded);
        visible_rows(nodes.drop_last(), depth, expanded) + seq![
            TreeRowView { name: n.name@, path: n.path@, is_dir: n.is_dir, depth, open, edit: false },
        ] + if open {
            visible_rows(n.children@, depth + 1, expanded)
        } else {
            Seq::empty()
        }
    }
}

fn is_expanded(expanded: &Vec<String>, path: &String) -> (r: bool)
    ensures
        r == paths_view(expanded@).contains(path@),
{
    let mut i: usize = 0;
    while i < expanded.len()
        invariant
            i <= expanded.len(),
            forall|j: int| 0 <= j < i ==> paths_view(expanded@)[j] != path@,
        decreases expanded.len() - i,
    {
        if expanded[i] == *path {
            assert(paths_view(expanded@)[i as int] == path@);
            return true;
        }
        i += 1;
    }
    false
}

/// Append the rows `nodes` show at `depth` to `out`.
pub fn flatten(nodes: &Vec<FileNode>, depth: usize, expanded: &Vec<String>, out: &mut Vec<TreeRow>)
    requires
        depth + height(nodes@) <= usize::MAX,
    ensures
        rows_view(final(out)@) == rows_view(old(out)@) + visible_rows(nodes@, depth as nat, paths_view(expanded@)),
    decreases nodes@,
{
    let ghost ex = paths_view(expanded@);
    let ghost start = rows_view(out@);
    let mut i: usize = 0;
    while i < nodes.len()
        invariant
            i <= nodes.len(),
            depth + height(nodes@) <= usize::MAX,
            ex == paths_view(expanded@),
            rows_view(out@) == start + visible_rows(nodes@.take(i as int), depth as nat, ex),
        decreases nodes.len() - i,
    {
        let n = &nodes[i];
        proof {
            assert(nodes@.take(i + 1).drop_last() == nodes@.take(i as int));
            assert(nodes@.take(i + 1).last() == nodes@[i as int]);
            lemma_height_bounds(nodes@, i as int);
        }
        let open = n.is_dir && is_expanded(expanded, &n.path);
        let ghost before = out@;
        out.push(TreeRow {
            name: n.name.clone(),
            path: n.path.clone(),
            is_dir: n.is_dir,
            depth,
            open,
            edit: false,
        });
        proof {
            assert(rows_view(out@) =~= rows_view(before).push(out@.last()@));
        }
        if open {
            proof {
                assert(decreases_to!(nodes@ => nodes@[i as int]));
                assert(decreases_to!(nodes@[i as int] => nodes@[i as int].children));
                assert(decreases_to!(nodes@[i as int].children => nodes@[i as int].children@));
            }
            flatten(&n.children, depth + 1, expanded, out);
        }
        proof {
            assert(rows_view(out@) =~= start + visible_rows(nodes@.take(i + 1), depth as nat, ex));
        }
        i += 1;
    }
    proof {
        assert(nodes@.take(i as int) == nodes@);
    }
}

proof fn lemma_height_bounds(nodes: Seq<FileNode>, i: int)
    requires
        0 <= i < nodes.len(),
    ensures
        1 + height(nodes[i].children@) <= height(nodes),
        height(nodes.take(i)) <= height(nodes),
    decreases nodes.len(),
{
    if i < nodes.len() - 1 {
        assert(nodes.drop_last()[i] == nodes[i]);
        lemma_height_bounds(nodes.drop_last(), i);
        assert(nodes.drop_last().take(i) == nodes.take(i));
    } else {
        assert(nodes.drop_last() == nodes.take(i));
    }
}

/// With nothing expanded, the tree shows exactly its top-level nodes, in order, at the given depth.
pub proof fn lemma_collapsed_tree_shows_top_level(nodes: Seq<FileNode>, depth: nat)
    ensures
        visible_rows(nodes, depth, Seq::empty()).len() == nodes.len(),
        forall|i: int|
            0 <= i < nodes.len() ==> #[trigger] visible_rows(nodes, depth, Seq::empty())[i].path == nodes[i].path@
                && visible_rows(nodes, depth, Seq::empty())[i].depth == depth && !visible_rows(
                nodes,
                depth,
                Seq::empty(),
            )[i].open,
    decreases nodes.len(),
{
    if nodes.len() > 0 {
        lemma_collapsed_tree_shows_top_level(nodes.drop_last(), depth);
        assert(!Seq::<Seq<char>>::empty().contains(nodes.last().path@));
        let rows = visible_rows(nodes, depth, Seq::empty());
        let prev = visible_rows(nodes.drop_last(), depth, Seq::empty());
        let n = nodes.last();
        let row = TreeRowView { name: n.name@, path: n.path@, is_dir: n.is_dir, depth, open: false, edit: false };
        assert(!is_open(n, Seq::empty()));
        assert(rows =~= prev + seq![row]);
        assert forall|i: int| 0 <= i < nodes.len() implies #[trigger] rows[i].path == nodes[i].path@
            && rows[i].depth == depth && !rows[i].open by {
            if i < nodes.len() - 1 {
                assert(rows[i] == prev[i]);
                assert(nodes.drop_last()[i] == nodes[i]);
            } else {
                assert(rows[i] == row);
            }
        }
    }
}

} // verus!
