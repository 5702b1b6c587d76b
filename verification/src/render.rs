use std::fmt::Write;

use vstd::prelude::*;

use crate::model::{lemma_child_facts, lemma_depth_bound, TreeView};
use crate::order::{lemma_pre_tree_exact, lemma_preorder_unfold};
use crate::node_id::{group_node_id, NodeId};
use crate::tree::Tree;

verus! {

broadcast use group_node_id;

/// The vertical guides in front of a line: for each level above, blank
/// when that level's node was the last of its siblings, a bar otherwise.
pub open spec fn guides(last: Seq<bool>) -> Seq<char>
    decreases last.len(),
{
    if last.len() == 0 {
        Seq::empty()
    } else {
        guides(last.drop_last()) + if last.last() {
            "    "@
        } else {
            "│   "@
        }
    }
}

/// The start of a line for a node whose ancestors' last-sibling flags are
/// `last`: nothing for the top node, else the guides of the levels above
/// and a branch, bent when the node is the last of its siblings.
pub open spec fn branch(last: Seq<bool>) -> Seq<char> {
    if last.len() == 0 {
        Seq::empty()
    } else {
        guides(last.drop_last()) + if last.last() {
            "└── "@
        } else {
            "├── "@
        }
    }
}

/// The text of each slot's label.
pub open spec fn label_texts(labels: Seq<String>) -> Seq<Seq<char>> {
    labels.map_values(|s: String| s@)
}

impl<T> TreeView<T> {
    /// The lines of the subtree of `x`: its own line, then the subtrees of
    /// its children, each child flagged as last or not; at most `fuel`
    /// levels below `x` are drawn.
    pub open spec fn render_tree(
        self,
        labels: Seq<Seq<char>>,
        x: NodeId,
        last: Seq<bool>,
        fuel: nat,
    ) -> Seq<char>
        decreases fuel, 0nat, 0nat,
    {
        let line = branch(last) + labels[x.idx() as int] + "\n"@;
        if fuel == 0 {
            line
        } else {
            line + self.render_children(labels, self.children(x), 0, last, (fuel - 1) as nat)
        }
    }

    /// The subtrees of `ids[j..]`, in order, below a parent whose flags are
    /// `last`.
    pub open spec fn render_children(
        self,
        labels: Seq<Seq<char>>,
        ids: Seq<NodeId>,
        j: int,
        last: Seq<bool>,
        fuel: nat,
    ) -> Seq<char>
        decreases fuel, 1nat, ids.len() - j,
    {
        if j < 0 || j >= ids.len() {
            Seq::empty()
        } else {
            self.render_tree(labels, ids[j], last.push(j == ids.len() - 1), fuel)
                + self.render_children(labels, ids, j + 1, last, fuel)
        }
    }

    /// The whole tree drawn line by line from its root, with the label of
    /// each node taken from its slot; nothing when there is no root.
    pub open spec fn rendered(self, labels: Seq<Seq<char>>) -> Seq<char> {
        match self.root {
            Some(r) => self.render_tree(labels, r, Seq::empty(), self.slots.len()),
            None => Seq::empty(),
        }
    }
}

/// Writes the guides for the flags `last`.
fn write_guides(w: &mut String, last: &Vec<bool>, n: usize)
    requires
        n <= last@.len(),
    ensures
        final(w)@ == old(w)@ + guides(last@.take(n as int)),
    decreases n,
{
    if n > 0 {
        write_guides(w, last, n - 1);
        assert(last@.take(n as int).drop_last() =~= last@.take(n - 1));
        if last[n - 1] {
            w.append("    ");
        } else {
            w.append("│   ");
        }
        assert(w@ =~= old(w)@ + guides(last@.take(n as int)));
    } else {
        assert(last@.take(0) =~= Seq::<bool>::empty());
        assert(w@ =~= old(w)@ + guides(last@.take(n as int)));
    }
}

impl<T> Tree<T> {
    /// Writes the line of `x` and the lines of its subtree.
    #[verifier::spinoff_prover]
    fn write_subtree(&self, w: &mut String, labels: &Vec<String>, x: &NodeId, last: &mut Vec<bool>)
        requires
            self@.wf(),
            self@.has(*x),
            labels@.len() == self@.slots.len(),
        ensures
            final(w)@ == old(w)@ + self@.render_tree(
                label_texts(labels@),
                *x,
                old(last)@,
                (self@.slots.len() - self@.depth(*x)) as nat,
            ),
            final(last)@ == old(last)@,
        decreases self@.slots.len() - self@.depth(*x),
    {
        let ghost v = self@;
        let ghost texts = label_texts(labels@);
        let ghost start = w@;
        let ghost flags = last@;
        let ghost fuel = (v.slots.len() - v.depth(*x)) as nat;
        proof {
            lemma_depth_bound(v, *x);
            assert(v.node_wf(*x));
        }
        let n = last.len();
        if n > 0 {
            write_guides(w, last, n - 1);
            assert(last@.take(n - 1) =~= last@.drop_last());
            if last[n - 1] {
                w.append("└── ");
            } else {
                w.append("├── ");
            }
        }
        assert(w@ =~= start + branch(flags));
        w.append(labels[x.index()].as_str());
        w.append("\n");
        let ghost after_line = w@;
        assert(after_line =~= start + (branch(flags) + texts[x.idx() as int] + "\n"@));
        let children = self.get_node(x).children();
        let count = children.len();
        let mut j: usize = 0;
        while j < count
            invariant
                v == self@,
                v.wf(),
                v.has(*x),
                v.node_wf(*x),
                v.depth(*x) < v.slots.len(),
                fuel == v.slots.len() - v.depth(*x),
                texts == label_texts(labels@),
                labels@.len() == v.slots.len(),
                children@ == v.children(*x),
                count == children@.len(),
                j <= count,
                last@ == flags,
                w@ + v.render_children(texts, children@, j as int, flags, (fuel - 1) as nat)
                    == after_line + v.render_children(texts, children@, 0, flags, (fuel - 1) as nat),
            decreases count - j,
        {
            let c = &children[j];
            proof {
                assert(v.has(children@[j as int]));
                assert(v.node_wf(*c));
            }
            last.push(j + 1 == count);
            let ghost before = w@;
            self.write_subtree(w, labels, c, last);
            last.pop();
            proof {
                assert(last@ =~= flags);
                let rest = v.render_children(texts, children@, j + 1, flags, (fuel - 1) as nat);
                assert(v.render_children(texts, children@, j as int, flags, (fuel - 1) as nat)
                    == v.render_tree(texts, *c, flags.push(j == count - 1), (fuel - 1) as nat)
                    + rest);
                assert(w@ + rest =~= before + v.render_children(
                    texts,
                    children@,
                    j as int,
                    flags,
                    (fuel - 1) as nat,
                ));
            }
            j = j + 1;
        }
        proof {
            assert(w@ =~= w@ + v.render_children(texts, children@, j as int, flags, (fuel - 1) as nat));
            assert(w@ =~= start + v.render_tree(texts, *x, flags, fuel));
        }
    }

    /// Draws the tree, one line per node from the root down, each line led
    /// by guides and a branch and ending with the node's label, the label of
    /// the node of slot `i` being `labels[i]`. Writes nothing when the tree
    /// has no root.
    pub fn write_formatted_with_labels(&self, w: &mut String, labels: &Vec<String>)
        requires
            self@.wf(),
            labels@.len() == self@.slots.len(),
        ensures
            final(w)@ == old(w)@ + self@.rendered(label_texts(labels@)),
    {
        match self.root_node_id() {
            Some(root) => {
                let mut last: Vec<bool> = Vec::new();
                proof {
                    assert(self@.node_wf(*root));
                    assert(last@ =~= Seq::<bool>::empty());
                }
                self.write_subtree(w, labels, root, &mut last);
            },
            None => {
                assert(w@ =~= old(w)@ + Seq::<char>::empty());
            },
        }
    }
}

/// `std::fmt::Error`, the error of a formatting write, carried as an opaque
/// value.
#[verifier::external_type_specification]
#[verifier::external_body]
pub struct ExFmtError(std::fmt::Error);

/// The text that the `Debug` implementation of `T` writes for `value`
/// (`write!(s, "{:?}", value)` into a new `String`), or the error that
/// implementation reports. Nothing is stated of the text or of when an
/// error comes: both are whatever that implementation does.
#[verifier::external_body]
fn debug_text<T: std::fmt::Debug>(value: &T) -> Result<String, std::fmt::Error> {
    let mut s = String::new();
    match write!(s, "{:?}", value) {
        Ok(()) => Ok(s),
        Err(e) => Err(e),
    }
}

impl<T: std::fmt::Debug> Tree<T> {
    /// Draws the tree, one line per node from the root down, each line led
    /// by guides and a branch and ending with the `Debug` text of the node's
    /// data. Writes nothing when the tree has no root. When the `Debug`
    /// implementation of the data reports an error, that error is returned
    /// and nothing is written.
    pub fn write_formatted(&self, w: &mut String) -> (r: Result<(), std::fmt::Error>)
        requires
            self@.wf(),
        ensures
            r is Ok ==> exists|labels: Seq<String>|
                labels.len() == self@.slots.len() && final(w)@ == old(w)@ + self@.rendered(
                    label_texts(labels),
                ),
            r is Err ==> final(w)@ == old(w)@,
    {
        let n = self.nodes_len();
        let mut labels: Vec<String> = Vec::new();
        let mut i: usize = 0;
        while i < n
            invariant
                n == self@.slots.len(),
                i <= n,
                labels@.len() == i,
            decreases n - i,
        {
            labels.push(String::new());
            i = i + 1;
        }
        if let Some(root) = self.root_node_id() {
            let mut walk = self.traverse_pre_order_ids(root).unwrap();
            loop
                invariant
                    walk.wf(),
                    walk.tree_view() == self@,
                    labels@.len() == n,
                    n == self@.slots.len(),
                decreases walk.remaining().len(),
            {
                match walk.next() {
                    Some(id) => {
                        match debug_text(self.get_node(&id).data()) {
                            Ok(text) => {
                                labels.set(id.index(), text);
                            },
                            Err(e) => {
                                return Err(e);
                            },
                        }
                    },
                    None => break,
                }
            }
        }
        self.write_formatted_with_labels(w, &labels);
        Ok(())
    }
}

/// A tree without a root draws nothing.
pub proof fn law_rootless_tree_draws_nothing<T>(v: TreeView<T>, labels: Seq<Seq<char>>)
    requires
        v.root is None,
    ensures
        v.rendered(labels) == Seq::<char>::empty(),
{
}

/// The number of line breaks in `s`.
pub open spec fn line_breaks(s: Seq<char>) -> nat {
    s.filter(|c: char| c == '\n').len()
}

/// Line breaks add up over concatenation.
proof fn lemma_line_breaks_add(a: Seq<char>, b: Seq<char>)
    ensures
        line_breaks(a + b) == line_breaks(a) + line_breaks(b),
{
    Seq::filter_distributes_over_add(a, b, |c: char| c == '\n');
}

/// A text with no line break in it has none.
proof fn lemma_no_line_breaks(s: Seq<char>)
    requires
        !s.contains('\n'),
    ensures
        line_breaks(s) == 0,
    decreases s.len(),
{
    reveal(Seq::filter);
    if s.len() > 0 {
        assert(!s.drop_last().contains('\n')) by {
            if s.drop_last().contains('\n') {
                let i = choose|i: int| 0 <= i < s.drop_last().len() && s.drop_last()[i] == '\n';
                assert(s[i] == '\n');
            }
        }
        lemma_no_line_breaks(s.drop_last());
        assert(s.last() != '\n') by {
            assert(s[s.len() - 1] == s.last());
        }
    }
}

/// Guides and branches hold no line break.
proof fn lemma_guides_no_breaks(last: Seq<bool>)
    ensures
        line_breaks(guides(last)) == 0,
        line_breaks(branch(last)) == 0,
    decreases last.len(),
{
    reveal_strlit("    ");
    reveal_strlit("│   ");
    reveal_strlit("└── ");
    reveal_strlit("├── ");
    if last.len() > 0 {
        lemma_guides_no_breaks(last.drop_last());
        let pieces = seq!["    "@, "│   "@, "└── "@, "├── "@];
        assert forall|k: int| 0 <= k < 4 implies !(#[trigger] pieces[k]).contains('\n') by {
            if pieces[k].contains('\n') {
                let i = choose|i: int| 0 <= i < pieces[k].len() && pieces[k][i] == '\n';
            }
        }
        assert(!pieces[0].contains('\n') && !pieces[1].contains('\n'));
        assert(!pieces[2].contains('\n') && !pieces[3].contains('\n'));
        lemma_no_line_breaks("    "@);
        lemma_no_line_breaks("│   "@);
        lemma_no_line_breaks("└── "@);
        lemma_no_line_breaks("├── "@);
        lemma_line_breaks_add(guides(last.drop_last()), "    "@);
        lemma_line_breaks_add(guides(last.drop_last()), "│   "@);
        lemma_line_breaks_add(guides(last.drop_last()), "└── "@);
        lemma_line_breaks_add(guides(last.drop_last()), "├── "@);
    } else {
        assert(guides(last) =~= Seq::<char>::empty());
        lemma_no_line_breaks(Seq::<char>::empty());
    }
}

/// The lines of a subtree: one per node of the subtree.
proof fn lemma_subtree_lines<T>(v: TreeView<T>, labels: Seq<Seq<char>>, x: NodeId, last: Seq<bool>)
    requires
        v.wf(),
        v.has(x),
        labels.len() == v.slots.len(),
        forall|i: int| 0 <= i < labels.len() ==> !(#[trigger] labels[i]).contains('\n'),
    ensures
        line_breaks(v.render_tree(labels, x, last, (v.slots.len() - v.depth(x)) as nat)) == v.preorder(x).len(),
    decreases v.slots.len() - v.depth(x), 0nat, 0nat,
{
    lemma_depth_bound(v, x);
    lemma_preorder_unfold(v, x);
    assert(v.node_wf(x));
    let f = (v.slots.len() - v.depth(x)) as nat;
    let ch = v.children(x);
    let d = v.depth(x) + 1;
    assert forall|k: int| 0 <= k < ch.len() implies v.has(#[trigger] ch[k]) && v.depth(ch[k]) == d by {
        assert(v.node_wf(ch[k]));
    }
    reveal_strlit("\n");
    assert("\n"@ =~= seq!['\n']);
    assert(line_breaks("\n"@) == 1) by {
        reveal(Seq::filter);
        assert(seq!['\n'].drop_last() =~= Seq::<char>::empty());
    }
    lemma_guides_no_breaks(last);
    assert(labels[x.idx() as int] == labels[x.idx() as int]);
    lemma_no_line_breaks(labels[x.idx() as int]);
    lemma_line_breaks_add(branch(last), labels[x.idx() as int]);
    lemma_line_breaks_add(branch(last) + labels[x.idx() as int], "\n"@);
    let line = branch(last) + labels[x.idx() as int] + "\n"@;
    lemma_children_lines(v, labels, ch, 0, last, d);
    assert(ch.skip(0) =~= ch);
    lemma_line_breaks_add(line, v.render_children(labels, ch, 0, last, (f - 1) as nat));
}

/// The lines of the subtrees of `ids[j..]`, all at depth `d`: one per node
/// of those subtrees.
proof fn lemma_children_lines<T>(
    v: TreeView<T>,
    labels: Seq<Seq<char>>,
    ids: Seq<NodeId>,
    j: int,
    last: Seq<bool>,
    d: nat,
)
    requires
        v.wf(),
        0 <= j <= ids.len(),
        forall|k: int| 0 <= k < ids.len() ==> v.has(#[trigger] ids[k]) && v.depth(ids[k]) == d,
        1 <= d <= v.slots.len(),
        labels.len() == v.slots.len(),
        forall|i: int| 0 <= i < labels.len() ==> !(#[trigger] labels[i]).contains('\n'),
    ensures
        line_breaks(v.render_children(labels, ids, j, last, (v.slots.len() - d) as nat)) == v.preorder_all(
            ids.skip(j),
        ).len(),
    decreases v.slots.len() - d, 1nat, ids.len() - j,
{
    let f = (v.slots.len() - d) as nat;
    if j >= ids.len() {
        assert(ids.skip(j) =~= Seq::<NodeId>::empty());
        reveal(Seq::filter);
    } else {
        assert(v.has(ids[j]));
        lemma_subtree_lines(v, labels, ids[j], last.push(j == ids.len() - 1));
        lemma_children_lines(v, labels, ids, j + 1, last, d);
        assert(ids.skip(j)[0] == ids[j]);
        assert(ids.skip(j).drop_first() =~= ids.skip(j + 1));
        lemma_line_breaks_add(
            v.render_tree(labels, ids[j], last.push(j == ids.len() - 1), f),
            v.render_children(labels, ids, j + 1, last, f),
        );
    }
}

/// Drawing a tree gives one line per node of the root's subtree, when no
/// label holds a line break.
pub proof fn law_one_line_per_node<T>(v: TreeView<T>, labels: Seq<Seq<char>>)
    requires
        v.wf(),
        v.root is Some,
        labels.len() == v.slots.len(),
        forall|i: int| 0 <= i < labels.len() ==> !(#[trigger] labels[i]).contains('\n'),
    ensures
        line_breaks(v.rendered(labels)) == v.preorder(v.root->0).len(),
{
    let r = v.root->0;
    assert(v.node_wf(r));
    lemma_subtree_lines(v, labels, r, Seq::empty());
}

/// The line drawn for the node `y` when the flags of the levels above it
/// are `last`: guides and a branch, the label of `y`, a line break.
pub open spec fn line_of(labels: Seq<Seq<char>>, y: NodeId, last: Seq<bool>) -> Seq<char> {
    branch(last) + labels[y.idx() as int] + "\n"@
}

impl<T> TreeView<T> {
    /// `y` is the last child of its parent, or has no parent.
    pub open spec fn is_last_child(self, y: NodeId) -> bool {
        match self.parent(y) {
            Some(p) => self.children(p).last() == y,
            None => true,
        }
    }

    /// For each level from just below `x` down to `y`, top first, whether
    /// the node on the path to `y` at that level is the last child of its
    /// parent.
    pub open spec fn path_flags(self, y: NodeId, x: NodeId) -> Seq<bool> {
        let n = (self.depth(y) - self.depth(x)) as nat;
        Seq::new(n, |i: int| self.is_last_child(self.ancestor_at(y, (n - 1 - i) as nat)->0))
    }

    /// The lines of the nodes `ids`, one after the other, each led by
    /// `last` and the flags of the levels between `x` and the node.
    pub open spec fn lines(self, labels: Seq<Seq<char>>, ids: Seq<NodeId>, x: NodeId, last: Seq<bool>) -> Seq<char>
        decreases ids.len(),
    {
        if ids.len() == 0 {
            Seq::empty()
        } else {
            line_of(labels, ids[0], last + self.path_flags(ids[0], x)) + self.lines(
                labels,
                ids.drop_first(),
                x,
                last,
            )
        }
    }
}

/// The lines of two runs of nodes are the lines of the first, then those of
/// the second.
proof fn lemma_lines_append<T>(
    v: TreeView<T>,
    labels: Seq<Seq<char>>,
    a: Seq<NodeId>,
    b: Seq<NodeId>,
    x: NodeId,
    last: Seq<bool>,
)
    ensures
        v.lines(labels, a + b, x, last) == v.lines(labels, a, x, last) + v.lines(labels, b, x, last),
    decreases a.len(),
{
    if a.len() == 0 {
        assert(a + b =~= b);
    } else {
        assert((a + b).drop_first() =~= a.drop_first() + b);
        assert((a + b)[0] == a[0]);
        lemma_lines_append(v, labels, a.drop_first(), b, x, last);
    }
}

/// Below a child `c` of `x`, the flags counted from `c` after the flag of
/// `c` itself are the flags counted from `x`.
proof fn lemma_lines_shift<T>(
    v: TreeView<T>,
    labels: Seq<Seq<char>>,
    ids: Seq<NodeId>,
    x: NodeId,
    c: NodeId,
    last: Seq<bool>,
)
    requires
        v.wf(),
        v.has(c),
        v.parent(c) == Some(x),
        v.depth(c) == v.depth(x) + 1,
        forall|k: int| 0 <= k < ids.len() ==> v.in_subtree(#[trigger] ids[k], c),
    ensures
        v.lines(labels, ids, c, last.push(v.is_last_child(c))) == v.lines(labels, ids, x, last),
    decreases ids.len(),
{
    if ids.len() > 0 {
        let y = ids[0];
        assert(v.in_subtree(y, c));
        let n = (v.depth(y) - v.depth(x)) as nat;
        let m = (v.depth(y) - v.depth(c)) as nat;
        assert(m + 1 == n);
        let fx = v.path_flags(y, x);
        let fc = v.path_flags(y, c);
        assert(fx =~= seq![v.is_last_child(c)] + fc) by {
            assert(v.ancestor_at(y, m) == Some(c));
            assert forall|i: int| 1 <= i < n implies fx[i] == fc[i - 1] by {
                assert((n - 1 - i) as nat == (m - 1 - (i - 1)) as nat);
            }
        }
        assert(last.push(v.is_last_child(c)) + fc =~= last + fx);
        let rest = ids.drop_first();
        assert forall|k: int| 0 <= k < rest.len() implies v.in_subtree(#[trigger] rest[k], c) by {
            assert(rest[k] == ids[k + 1]);
        }
        lemma_lines_shift(v, labels, rest, x, c, last);
    }
}

/// The drawing of the subtree of `x` is the line of each of its nodes, in
/// pre-order.
proof fn lemma_render_tree_lines<T>(v: TreeView<T>, labels: Seq<Seq<char>>, x: NodeId, last: Seq<bool>)
    requires
        v.wf(),
        v.has(x),
    ensures
        v.render_tree(labels, x, last, (v.slots.len() - v.depth(x)) as nat) == v.lines(
            labels,
            v.preorder(x),
            x,
            last,
        ),
    decreases v.slots.len() - v.depth(x), 1nat, 0nat,
{
    lemma_depth_bound(v, x);
    lemma_preorder_unfold(v, x);
    assert(v.node_wf(x));
    let ch = v.children(x);
    lemma_render_children_lines(v, labels, x, 0, last);
    assert(ch.skip(0) =~= ch);
    lemma_lines_append(v, labels, seq![x], v.preorder_all(ch), x, last);
    assert(seq![x].drop_first() =~= Seq::<NodeId>::empty());
    assert(v.path_flags(x, x) =~= Seq::<bool>::empty());
    assert(last + v.path_flags(x, x) =~= last);
    assert(seq![x][0] == x);
    assert(v.lines(labels, Seq::<NodeId>::empty(), x, last) == Seq::<char>::empty());
    assert(v.lines(labels, seq![x], x, last) == line_of(labels, x, last + v.path_flags(x, x))
        + v.lines(labels, Seq::<NodeId>::empty(), x, last));
    assert(v.lines(labels, seq![x], x, last) =~= line_of(labels, x, last));
}

/// The drawing of the subtrees of the children `j..` of `x` is the line of
/// each of their nodes, in pre-order.
proof fn lemma_render_children_lines<T>(
    v: TreeView<T>,
    labels: Seq<Seq<char>>,
    x: NodeId,
    j: int,
    last: Seq<bool>,
)
    requires
        v.wf(),
        v.has(x),
        0 <= j <= v.children(x).len(),
    ensures
        v.render_children(labels, v.children(x), j, last, (v.slots.len() - v.depth(x) - 1) as nat)
            == v.lines(labels, v.preorder_all(v.children(x).skip(j)), x, last),
    decreases v.slots.len() - v.depth(x), 0nat, v.children(x).len() - j,
{
    let ch = v.children(x);
    lemma_depth_bound(v, x);
    assert(v.node_wf(x));
    if j >= ch.len() {
        assert(ch.skip(j) =~= Seq::<NodeId>::empty());
    } else {
        let c = ch[j];
        assert(ch.contains(c));
        lemma_child_facts(v, x, c);
        let b = j == ch.len() - 1;
        assert(b == v.is_last_child(c)) by {
            if !b {
                assert(ch.last() == ch[ch.len() - 1]);
                assert(ch[ch.len() - 1] != ch[j]);
            }
        }
        lemma_render_tree_lines(v, labels, c, last.push(b));
        lemma_pre_tree_exact(v, c);
        assert forall|k: int| 0 <= k < v.preorder(c).len() implies v.in_subtree(#[trigger] v.preorder(c)[k], c) by {
            assert(v.preorder(c).contains(v.preorder(c)[k]));
        }
        lemma_lines_shift(v, labels, v.preorder(c), x, c, last);
        lemma_render_children_lines(v, labels, x, j + 1, last);
        assert(ch.skip(j)[0] == c);
        assert(ch.skip(j).drop_first() =~= ch.skip(j + 1));
        lemma_lines_append(v, labels, v.preorder(c), v.preorder_all(ch.skip(j + 1)), x, last);
    }
}

/// The drawing of a tree, line by line: for each node in pre-order from the
/// root, one line made of a guide for each level between the root and the
/// node (blank below a last child, a bar otherwise), a branch (bent for a
/// last child), the node's label and a line break.
pub proof fn law_drawing_line_by_line<T>(v: TreeView<T>, labels: Seq<Seq<char>>)
    requires
        v.wf(),
        v.root is Some,
    ensures
        v.rendered(labels) == v.lines(labels, v.preorder(v.root->0), v.root->0, Seq::empty()),
{
    lemma_render_tree_lines(v, labels, v.root->0, Seq::empty());
}

} // verus!
