//! A hierarchical, delimiter-segmented multimap: each node of the tree is
//! addressed by a path whose segments are separated by a configurable
//! delimiter string, holds an ordered sequence of values, and owns a set of
//! uniquely named child subtrees.
use vstd::prelude::*;

verus! {

// ---------------------------------------------------------------------------
// Path splitting over sequences of characters
// ---------------------------------------------------------------------------

/// True when `p` starts with the (non-empty) delimiter `d`.
pub open spec fn begins_with(p: Seq<char>, d: Seq<char>) -> bool {
    d.len() > 0 && p.len() >= d.len() && p.subrange(0, d.len() as int) == d
}

/// Strips exactly one leading occurrence of the delimiter, if present.
pub open spec fn strip_lead(d: Seq<char>, p: Seq<char>) -> Seq<char> {
    if begins_with(p, d) {
        p.subrange(d.len() as int, p.len() as int)
    } else {
        p
    }
}

/// Index of the first occurrence of `d` inside `p`, if any.
/// An empty delimiter never occurs.
pub open spec fn find_delim(p: Seq<char>, d: Seq<char>) -> Option<int>
    decreases p.len(),
{
    if d.len() == 0 || p.len() < d.len() {
        None
    } else if p.subrange(0, d.len() as int) == d {
        Some(0)
    } else {
        match find_delim(p.subrange(1, p.len() as int), d) {
            Some(i) => Some(i + 1),
            None => None,
        }
    }
}

/// The segment before the first delimiter; the whole path when the
/// delimiter does not occur.
pub open spec fn head_of(d: Seq<char>, q: Seq<char>) -> Seq<char> {
    match find_delim(q, d) {
        Some(i) => q.subrange(0, i),
        None => q,
    }
}

/// What remains after the first delimiter; empty when the delimiter does
/// not occur.
pub open spec fn tail_of(d: Seq<char>, q: Seq<char>) -> Seq<char> {
    match find_delim(q, d) {
        Some(i) => q.subrange(i + d.len(), q.len() as int),
        None => Seq::empty(),
    }
}

/// A found delimiter lies inside the path, and nothing before it matches.
pub proof fn lemma_find_delim_bounds(p: Seq<char>, d: Seq<char>)
    ensures
        match find_delim(p, d) {
            Some(i) => {
                &&& 0 <= i
                &&& i + d.len() <= p.len()
                &&& d.len() > 0
                &&& p.subrange(i, i + d.len() as int) == d
                &&& forall|j: int|
                    0 <= j < i ==> #[trigger] p.subrange(j, j + d.len() as int) != d
            },
            None => d.len() == 0 || forall|j: int|
                0 <= j && j + d.len() <= p.len() ==> #[trigger] p.subrange(
                    j,
                    j + d.len() as int,
                ) != d,
        },
    decreases p.len(),
{
    if d.len() == 0 || p.len() < d.len() {
        if d.len() > 0 {
            assert forall|j: int| 0 <= j && j + d.len() <= p.len() implies #[trigger] p.subrange(
                j,
                j + d.len() as int,
            ) != d by {
                assert(p.len() < d.len());
            }
        }
    } else if p.subrange(0, d.len() as int) == d {
    } else {
        let p1 = p.subrange(1, p.len() as int);
        lemma_find_delim_bounds(p1, d);
        assert forall|j: int| 0 <= j && j + d.len() <= p1.len() implies #[trigger] p1.subrange(
            j,
            j + d.len() as int,
        ) == p.subrange(j + 1, j + 1 + d.len() as int) by {
            let a = p1.subrange(j, j + d.len() as int);
            let b = p.subrange(j + 1, j + 1 + d.len() as int);
            assert forall|k: int| 0 <= k < a.len() implies a[k] == b[k] by {
                assert(a[k] == p1[j + k]);
                assert(p1[j + k] == p[1 + j + k]);
                assert(b[k] == p[j + 1 + k]);
            }
            assert(a =~= b);
        }
        match find_delim(p1, d) {
            Some(i) => {
                assert(p.subrange(i + 1, i + 1 + d.len() as int) == d);
                assert forall|j: int| 0 <= j < i + 1 implies #[trigger] p.subrange(
                    j,
                    j + d.len() as int,
                ) != d by {
                    if j == 0 {
                        assert(p.subrange(0, d.len() as int) != d);
                    } else {
                        assert(p1.subrange(j - 1, j - 1 + d.len() as int) != d);
                    }
                }
            },
            None => {
                assert forall|j: int| 0 <= j && j + d.len() <= p.len() implies #[trigger] p.subrange(
                    j,
                    j + d.len() as int,
                ) != d by {
                    if j == 0 {
                        assert(p.subrange(0, d.len() as int) != d);
                    } else {
                        assert(p1.subrange(j - 1, j - 1 + d.len() as int) != d);
                    }
                }
            },
        }
    }
}

/// The tail is strictly shorter than a non-empty split path, which bounds
/// the recursion of every traversal.
pub proof fn lemma_tail_shorter(d: Seq<char>, q: Seq<char>)
    requires
        q.len() > 0,
    ensures
        tail_of(d, q).len() < q.len(),
        head_of(d, q).len() <= q.len(),
{
    lemma_find_delim_bounds(q, d);
}

// ---------------------------------------------------------------------------
// Executable helpers over strings
// ---------------------------------------------------------------------------

/// Character-wise string equality.
pub(crate) fn str_eq(a: &str, b: &str) -> (r: bool)
    ensures
        r == (a@ == b@),
{
    let sa = a.to_owned();
    let sb = b.to_owned();
    sa == sb
}

/// Whether `p` begins with the delimiter `d`.
fn has_prefix(p: &str, d: &str) -> (r: bool)
    ensures
        r == begins_with(p@, d@),
{
    let dlen = d.unicode_len();
    if dlen == 0 || p.unicode_len() < dlen {
        false
    } else {
        str_eq(p.substring_char(0, dlen), d)
    }
}

/// Strips exactly one leading occurrence of the delimiter.
fn strip_leading<'a>(p: &'a str, d: &str) -> (r: &'a str)
    ensures
        r@ == strip_lead(d@, p@),
{
    if has_prefix(p, d) {
        p.substring_char(d.unicode_len(), p.unicode_len())
    } else {
        p
    }
}

/// First occurrence of the delimiter inside `p`, mirroring `find_delim`.
fn find_first(p: &str, d: &str) -> (r: Option<usize>)
    ensures
        match r {
            Some(i) => find_delim(p@, d@) == Some(i as int),
            None => find_delim(p@, d@) is None,
        },
    decreases p@.len(),
{
    let plen = p.unicode_len();
    let dlen = d.unicode_len();
    if dlen == 0 || plen < dlen {
        None
    } else if str_eq(p.substring_char(0, dlen), d) {
        Some(0)
    } else {
        let rest = p.substring_char(1, plen);
        match find_first(rest, d) {
            Some(i) => {
                proof {
                    lemma_find_delim_bounds(rest@, d@);
                }
                Some(i + 1)
            },
            None => None,
        }
    }
}


// ---------------------------------------------------------------------------
// The mathematical model of a tree node
// ---------------------------------------------------------------------------

/// Abstract value of one node: the segment name that reached it, its own
/// ordered values, and its named children in insertion order.
#[verifier::ext_equal]
pub struct NodeModel<T> {
    pub label: Seq<char>,
    pub values: Seq<T>,
    pub children: Seq<(Seq<char>, NodeModel<T>)>,
}

/// Index of the first child with the given name, if any.
pub open spec fn find_key<T>(cs: Seq<(Seq<char>, NodeModel<T>)>, name: Seq<char>) -> Option<int>
    decreases cs.len(),
{
    if cs.len() == 0 {
        None
    } else if cs[0].0 == name {
        Some(0)
    } else {
        match find_key(cs.subrange(1, cs.len() as int), name) {
            Some(i) => Some(i + 1),
            None => None,
        }
    }
}

/// `find_key` returns the first index carrying the name, or reports that
/// no index carries it.
pub proof fn lemma_find_key_props<T>(cs: Seq<(Seq<char>, NodeModel<T>)>, name: Seq<char>)
    ensures
        match find_key(cs, name) {
            Some(i) => {
                &&& 0 <= i < cs.len()
                &&& cs[i].0 == name
                &&& forall|j: int| 0 <= j < i ==> (#[trigger] cs[j].0) != name
            },
            None => forall|j: int| 0 <= j < cs.len() ==> (#[trigger] cs[j].0) != name,
        },
    decreases cs.len(),
{
    if cs.len() > 0 && cs[0].0 != name {
        let cs1 = cs.subrange(1, cs.len() as int);
        lemma_find_key_props(cs1, name);
        assert forall|j: int| 1 <= j < cs.len() implies cs1[j - 1] == cs[j] by {}
    }
}

/// Conversely, the first index carrying the name determines `find_key`.
pub proof fn lemma_find_key_at<T>(cs: Seq<(Seq<char>, NodeModel<T>)>, name: Seq<char>, i: int)
    requires
        0 <= i < cs.len(),
        cs[i].0 == name,
        forall|j: int| 0 <= j < i ==> (#[trigger] cs[j].0) != name,
    ensures
        find_key(cs, name) == Some(i),
    decreases cs.len(),
{
    if i > 0 {
        let cs1 = cs.subrange(1, cs.len() as int);
        assert forall|j: int| 1 <= j < cs.len() implies cs1[j - 1] == cs[j] by {}
        lemma_find_key_at(cs1, name, i - 1);
    }
}

/// A name carried by no child makes `find_key` return nothing.
pub proof fn lemma_find_key_none<T>(cs: Seq<(Seq<char>, NodeModel<T>)>, name: Seq<char>)
    requires
        forall|j: int| 0 <= j < cs.len() ==> (#[trigger] cs[j].0) != name,
    ensures
        find_key(cs, name) is None,
    decreases cs.len(),
{
    if cs.len() > 0 {
        let cs1 = cs.subrange(1, cs.len() as int);
        lemma_find_key_none(cs1, name);
    }
}

impl<T> NodeModel<T> {
    /// A node that was just created to route to the segment `label`.
    pub open spec fn new_child(label: Seq<char>) -> NodeModel<T> {
        NodeModel { label, values: Seq::empty(), children: Seq::empty() }
    }

    /// Well-formedness: every child is named uniquely, is labelled by its
    /// own name, and is itself well formed.
    pub open spec fn wf(self) -> bool
        decreases self,
    {
        kids_wf(self.children)
    }
}

/// Well-formedness of a child sequence; see `NodeModel::wf`.
pub open spec fn kids_wf<T>(cs: Seq<(Seq<char>, NodeModel<T>)>) -> bool
    decreases cs,
{
    if cs.len() == 0 {
        true
    } else {
        &&& cs[0].1.label == cs[0].0
        &&& cs[0].1.wf()
        &&& (forall|j: int| 1 <= j < cs.len() ==> (#[trigger] cs[j].0) != cs[0].0)
        &&& kids_wf(cs.subrange(1, cs.len() as int))
    }
}

/// Unrolls `kids_wf` into pointwise facts: each child is well formed and
/// labelled by its unique name.
pub proof fn lemma_kids_wf_index<T>(cs: Seq<(Seq<char>, NodeModel<T>)>)
    requires
        kids_wf(cs),
    ensures
        forall|i: int| 0 <= i < cs.len() ==> (#[trigger] cs[i].1).wf(),
        forall|i: int| 0 <= i < cs.len() ==> (#[trigger] cs[i].1).label == cs[i].0,
        forall|i: int, j: int|
            0 <= i < j < cs.len() ==> (#[trigger] cs[i].0) != (#[trigger] cs[j].0),
    decreases cs.len(),
{
    if cs.len() > 0 {
        let cs1 = cs.subrange(1, cs.len() as int);
        lemma_kids_wf_index(cs1);
        assert forall|j: int| 1 <= j < cs.len() implies cs1[j - 1] == cs[j] by {}
    }
}

/// Rebuilds `kids_wf` from the pointwise facts of `lemma_kids_wf_index`.
pub proof fn lemma_kids_wf_build<T>(cs: Seq<(Seq<char>, NodeModel<T>)>)
    requires
        forall|i: int| 0 <= i < cs.len() ==> (#[trigger] cs[i].1).wf(),
        forall|i: int| 0 <= i < cs.len() ==> (#[trigger] cs[i].1).label == cs[i].0,
        forall|i: int, j: int|
            0 <= i < j < cs.len() ==> (#[trigger] cs[i].0) != (#[trigger] cs[j].0),
    ensures
        kids_wf(cs),
    decreases cs.len(),
{
    if cs.len() > 0 {
        let cs1 = cs.subrange(1, cs.len() as int);
        assert forall|j: int| 1 <= j < cs.len() implies cs1[j - 1] == cs[j] by {}
        assert forall|i: int| 0 <= i < cs1.len() implies (#[trigger] cs1[i].1).wf()
            && cs1[i].1.label == cs1[i].0 by {
            assert(cs1[i] == cs[i + 1]);
        }
        assert forall|i: int, j: int| 0 <= i < j < cs1.len() implies (#[trigger] cs1[i].0)
            != (#[trigger] cs1[j].0) by {
            assert(cs1[i] == cs[i + 1]);
            assert(cs1[j] == cs[j + 1]);
        }
        lemma_kids_wf_build(cs1);
    }
}


// ---------------------------------------------------------------------------
// Model-level traversal operations
// ---------------------------------------------------------------------------

/// Whether an insert (or replace) along `p` succeeds.  Success depends on
/// the path and delimiter alone: the traversal only fails on an empty head
/// segment.
pub open spec fn insert_ok(d: Seq<char>, p: Seq<char>) -> bool
    decreases p.len(),
    via insert_ok_dec
{
    let q = strip_lead(d, p);
    if q.len() == 0 {
        true
    } else {
        let h = head_of(d, q);
        if h.len() == 0 {
            false
        } else {
            insert_ok(d, tail_of(d, q))
        }
    }
}

#[via_fn]
proof fn insert_ok_dec(d: Seq<char>, p: Seq<char>) {
    let q = strip_lead(d, p);
    if q.len() > 0 {
        lemma_tail_shorter(d, q);
    }
}

impl<T> NodeModel<T> {
    /// The node after appending `v` at the node addressed by `p`,
    /// creating intermediate nodes as needed.
    pub open spec fn insert_at(self, d: Seq<char>, p: Seq<char>, v: T) -> NodeModel<T>
        decreases p.len(),
        via Self::insert_at_dec
    {
        let q = strip_lead(d, p);
        if q.len() == 0 {
            NodeModel { label: self.label, values: self.values.push(v), children: self.children }
        } else {
            let h = head_of(d, q);
            let t = tail_of(d, q);
            if h.len() == 0 {
                self
            } else {
                match find_key(self.children, h) {
                    Some(i) => NodeModel {
                        label: self.label,
                        values: self.values,
                        children: self.children.update(
                            i,
                            (h, self.children[i].1.insert_at(d, t, v)),
                        ),
                    },
                    None => NodeModel {
                        label: self.label,
                        values: self.values,
                        children: self.children.push(
                            (h, NodeModel::new_child(h).insert_at(d, t, v)),
                        ),
                    },
                }
            }
        }
    }

    #[via_fn]
    proof fn insert_at_dec(self, d: Seq<char>, p: Seq<char>, v: T) {
        let q = strip_lead(d, p);
        if q.len() > 0 {
            lemma_tail_shorter(d, q);
        }
    }

    /// The node after overwriting the values of the node addressed by `p`
    /// with the full sequence `vs`, creating intermediate nodes as needed.
    pub open spec fn replace_at(self, d: Seq<char>, p: Seq<char>, vs: Seq<T>) -> NodeModel<T>
        decreases p.len(),
        via Self::replace_at_dec
    {
        let q = strip_lead(d, p);
        if q.len() == 0 {
            NodeModel { label: self.label, values: vs, children: self.children }
        } else {
            let h = head_of(d, q);
            let t = tail_of(d, q);
            if h.len() == 0 {
                self
            } else {
                match find_key(self.children, h) {
                    Some(i) => NodeModel {
                        label: self.label,
                        values: self.values,
                        children: self.children.update(
                            i,
                            (h, self.children[i].1.replace_at(d, t, vs)),
                        ),
                    },
                    None => NodeModel {
                        label: self.label,
                        values: self.values,
                        children: self.children.push(
                            (h, NodeModel::new_child(h).replace_at(d, t, vs)),
                        ),
                    },
                }
            }
        }
    }

    #[via_fn]
    proof fn replace_at_dec(self, d: Seq<char>, p: Seq<char>, vs: Seq<T>) {
        let q = strip_lead(d, p);
        if q.len() > 0 {
            lemma_tail_shorter(d, q);
        }
    }

    /// The node after removing the whole subtree addressed by `p`, paired
    /// with whether that child entry existed.  The addressed segment is
    /// the one after which the remaining tail is empty.
    pub open spec fn remove_at(self, d: Seq<char>, p: Seq<char>) -> (NodeModel<T>, bool)
        decreases p.len(),
        via Self::remove_at_dec
    {
        let q = strip_lead(d, p);
        if q.len() == 0 {
            (self, false)
        } else {
            let h = head_of(d, q);
            let t = tail_of(d, q);
            if h.len() == 0 {
                (self, false)
            } else if t.len() == 0 {
                match find_key(self.children, h) {
                    Some(i) => (
                        NodeModel {
                            label: self.label,
                            values: self.values,
                            children: self.children.remove(i),
                        },
                        true,
                    ),
                    None => (self, false),
                }
            } else {
                match find_key(self.children, h) {
                    Some(i) => {
                        let rec = self.children[i].1.remove_at(d, t);
                        (
                            NodeModel {
                                label: self.label,
                                values: self.values,
                                children: self.children.update(i, (h, rec.0)),
                            },
                            rec.1,
                        )
                    },
                    None => (self, false),
                }
            }
        }
    }

    #[via_fn]
    proof fn remove_at_dec(self, d: Seq<char>, p: Seq<char>) {
        let q = strip_lead(d, p);
        if q.len() > 0 {
            lemma_tail_shorter(d, q);
        }
    }

    /// The node addressed by `p`, if it exists.  An empty head segment
    /// stops the walk at the current node.
    pub open spec fn node_at(self, d: Seq<char>, p: Seq<char>) -> Option<NodeModel<T>>
        decreases p.len(),
        via Self::node_at_dec
    {
        let q = strip_lead(d, p);
        if q.len() == 0 {
            Some(self)
        } else {
            let h = head_of(d, q);
            let t = tail_of(d, q);
            if h.len() == 0 {
                Some(self)
            } else {
                match find_key(self.children, h) {
                    Some(i) => self.children[i].1.node_at(d, t),
                    None => None,
                }
            }
        }
    }

    #[via_fn]
    proof fn node_at_dec(self, d: Seq<char>, p: Seq<char>) {
        let q = strip_lead(d, p);
        if q.len() > 0 {
            lemma_tail_shorter(d, q);
        }
    }

    /// The values held by the node addressed by `p`; empty when the node
    /// is absent.
    pub open spec fn fetch_at(self, d: Seq<char>, p: Seq<char>) -> Seq<T> {
        match self.node_at(d, p) {
            Some(n) => n.values,
            None => Seq::empty(),
        }
    }

    /// Every value of the subtree, in pre-order: the node's own values,
    /// then each child's items in turn.
    pub open spec fn all_items(self) -> Seq<T>
        decreases self,
    {
        self.values + kids_items(self.children)
    }
}

/// Concatenation of the items of each child subtree; see `all_items`.
pub open spec fn kids_items<T>(cs: Seq<(Seq<char>, NodeModel<T>)>) -> Seq<T>
    decreases cs,
{
    if cs.len() == 0 {
        Seq::empty()
    } else {
        cs[0].1.all_items() + kids_items(cs.subrange(1, cs.len() as int))
    }
}


// ---------------------------------------------------------------------------
// The executable tree
// ---------------------------------------------------------------------------

/// A path-indexed multimap tree.  `delim` is the segment separator shared
/// by every node of one tree; `head` is the segment name that reached this
/// node (empty at the root); `var` holds this node's own values in
/// insertion order; `parts` maps each child segment name to the child
/// subtree it owns.
#[derive(Debug)]
pub struct Btree<T> {
    pub delim: String,
    pub head: String,
    pub var: Vec<T>,
    pub parts: Vec<(String, Btree<T>)>,
}

/// Abstract value of a child vector; see `Btree::model`.
pub open spec fn children_model<T>(parts: Seq<(String, Btree<T>)>) -> Seq<
    (Seq<char>, NodeModel<T>),
>
    decreases parts,
{
    if parts.len() == 0 {
        Seq::empty()
    } else {
        seq![(parts[0].0@, parts[0].1.model())] + children_model(
            parts.subrange(1, parts.len() as int),
        )
    }
}

/// Every node of the tree carries the same delimiter `d`.
pub open spec fn parts_delims_ok<T>(d: Seq<char>, parts: Seq<(String, Btree<T>)>) -> bool
    decreases parts,
{
    if parts.len() == 0 {
        true
    } else {
        &&& parts[0].1.delim@ == d
        &&& parts[0].1.delims_ok()
        &&& parts_delims_ok(d, parts.subrange(1, parts.len() as int))
    }
}

impl<T> Btree<T> {
    /// The mathematical value of this node and its subtree.
    pub open spec fn model(self) -> NodeModel<T>
        decreases self,
    {
        NodeModel { label: self.head@, values: self.var@, children: children_model(self.parts@) }
    }

    /// Every descendant shares this node's delimiter.
    pub open spec fn delims_ok(self) -> bool
        decreases self,
    {
        parts_delims_ok(self.delim@, self.parts@)
    }

    /// Well-formedness: uniform delimiter and uniquely named, correctly
    /// labelled children throughout.
    pub open spec fn wf(self) -> bool {
        self.delims_ok() && self.model().wf()
    }
}

impl<T> View for Btree<T> {
    type V = NodeModel<T>;

    open spec fn view(&self) -> NodeModel<T> {
        self.model()
    }
}

/// Unrolls `children_model` into pointwise facts.
proof fn lemma_children_model_index<T>(parts: Seq<(String, Btree<T>)>)
    ensures
        children_model(parts).len() == parts.len(),
        forall|i: int|
            0 <= i < parts.len() ==> #[trigger] children_model(parts)[i] == (
                parts[i].0@,
                parts[i].1.model(),
            ),
    decreases parts.len(),
{
    if parts.len() > 0 {
        let p1 = parts.subrange(1, parts.len() as int);
        lemma_children_model_index(p1);
        assert forall|j: int| 1 <= j < parts.len() implies p1[j - 1] == parts[j] by {}
        assert forall|i: int| 0 <= i < parts.len() implies #[trigger] children_model(parts)[i]
            == (parts[i].0@, parts[i].1.model()) by {
            if i > 0 {
                assert(children_model(parts)[i] == children_model(p1)[i - 1]);
            }
        }
    }
}

/// Unrolls `parts_delims_ok` into pointwise facts.
proof fn lemma_delims_ok_index<T>(d: Seq<char>, parts: Seq<(String, Btree<T>)>)
    requires
        parts_delims_ok(d, parts),
    ensures
        forall|i: int| 0 <= i < parts.len() ==> (#[trigger] parts[i].1).delim@ == d,
        forall|i: int| 0 <= i < parts.len() ==> (#[trigger] parts[i].1).delims_ok(),
    decreases parts.len(),
{
    if parts.len() > 0 {
        let p1 = parts.subrange(1, parts.len() as int);
        lemma_delims_ok_index(d, p1);
        assert forall|j: int| 1 <= j < parts.len() implies p1[j - 1] == parts[j] by {}
    }
}

/// Rebuilds `parts_delims_ok` from pointwise facts.
proof fn lemma_delims_ok_build<T>(d: Seq<char>, parts: Seq<(String, Btree<T>)>)
    requires
        forall|i: int| 0 <= i < parts.len() ==> (#[trigger] parts[i].1).delim@ == d,
        forall|i: int| 0 <= i < parts.len() ==> (#[trigger] parts[i].1).delims_ok(),
    ensures
        parts_delims_ok(d, parts),
    decreases parts.len(),
{
    if parts.len() > 0 {
        let p1 = parts.subrange(1, parts.len() as int);
        assert forall|j: int| 1 <= j < parts.len() implies p1[j - 1] == parts[j] by {}
        assert forall|i: int| 0 <= i < p1.len() implies (#[trigger] p1[i].1).delim@ == d
            && p1[i].1.delims_ok() by {
            assert(p1[i] == parts[i + 1]);
        }
        lemma_delims_ok_build(d, p1);
    }
}

impl<T> Btree<T> {
    /// A fresh root with the given delimiter: no values, no children.
    pub fn new(delim: &str) -> (r: Self)
        ensures
            r.wf(),
            r.delim@ == delim@,
            r@ == (NodeModel::<T> {
                label: Seq::empty(),
                values: Seq::empty(),
                children: Seq::empty(),
            }),
    {
        let r = Btree {
            delim: delim.to_owned(),
            head: String::new(),
            var: Vec::new(),
            parts: Vec::new(),
        };
        proof {
            assert(r.model().children =~= Seq::<(Seq<char>, NodeModel<T>)>::empty());
            assert(r@ =~~= (NodeModel::<T> {
                label: Seq::empty(),
                values: Seq::empty(),
                children: Seq::empty(),
            }));
        }
        r
    }
}

/// Index of the child keyed by `name` inside `parts`, mirroring
/// `find_key` on the abstract children.
fn find_child<T>(parts: &Vec<(String, Btree<T>)>, name: &str) -> (r: Option<usize>)
    ensures
        match r {
            Some(i) => i < parts@.len() && find_key(children_model(parts@), name@) == Some(
                i as int,
            ),
            None => find_key(children_model(parts@), name@) is None,
        },
{
    proof {
        lemma_children_model_index(parts@);
    }
    let ghost cs = children_model(parts@);
    let n = parts.len();
    for i in 0..n
        invariant
            n == parts@.len(),
            cs == children_model(parts@),
            cs.len() == parts@.len(),
            forall|j: int|
                0 <= j < parts@.len() ==> #[trigger] cs[j] == (parts@[j].0@, parts@[j].1.model()),
            forall|j: int| 0 <= j < i ==> (#[trigger] cs[j].0) != name@,
    {
        if str_eq(parts[i].0.as_str(), name) {
            proof {
                lemma_find_key_at(cs, name@, i as int);
            }
            return Some(i);
        }
    }
    proof {
        lemma_find_key_none(cs, name@);
    }
    None
}


// ---------------------------------------------------------------------------
// Well-formedness is preserved by the model operations
// ---------------------------------------------------------------------------

/// Inserting keeps the node's label and preserves well-formedness.
pub proof fn lemma_insert_at_wf<T>(m: NodeModel<T>, d: Seq<char>, p: Seq<char>, v: T)
    ensures
        m.insert_at(d, p, v).label == m.label,
        m.wf() ==> m.insert_at(d, p, v).wf(),
    decreases p.len(),
{
    let q = strip_lead(d, p);
    if q.len() == 0 {
    } else {
        lemma_tail_shorter(d, q);
        let h = head_of(d, q);
        let t = tail_of(d, q);
        if h.len() == 0 {
        } else {
            lemma_find_key_props(m.children, h);
            match find_key(m.children, h) {
                Some(i) => {
                    lemma_insert_at_wf(m.children[i].1, d, t, v);
                    if m.wf() {
                        lemma_kids_wf_index(m.children);
                        let cs2 = m.children.update(i, (h, m.children[i].1.insert_at(d, t, v)));
                        assert forall|k: int| 0 <= k < cs2.len() implies (#[trigger] cs2[k].1).wf()
                            && cs2[k].1.label == cs2[k].0 by {
                            if k != i {
                                assert(cs2[k] == m.children[k]);
                            }
                        }
                        assert forall|a: int, b: int| 0 <= a < b < cs2.len() implies (
                        #[trigger] cs2[a].0) != (#[trigger] cs2[b].0) by {
                            assert(cs2[a].0 == m.children[a].0);
                            assert(cs2[b].0 == m.children[b].0);
                        }
                        lemma_kids_wf_build(cs2);
                    }
                },
                None => {
                    let nc = NodeModel::<T>::new_child(h).insert_at(d, t, v);
                    lemma_insert_at_wf(NodeModel::<T>::new_child(h), d, t, v);
                    assert(NodeModel::<T>::new_child(h).wf());
                    if m.wf() {
                        lemma_kids_wf_index(m.children);
                        let cs2 = m.children.push((h, nc));
                        assert forall|k: int| 0 <= k < cs2.len() implies (#[trigger] cs2[k].1).wf()
                            && cs2[k].1.label == cs2[k].0 by {
                            if k < m.children.len() {
                                assert(cs2[k] == m.children[k]);
                            }
                        }
                        assert forall|a: int, b: int| 0 <= a < b < cs2.len() implies (
                        #[trigger] cs2[a].0) != (#[trigger] cs2[b].0) by {
                            assert(cs2[a].0 == m.children[a].0);
                            if b < m.children.len() {
                                assert(cs2[b].0 == m.children[b].0);
                            }
                        }
                        lemma_kids_wf_build(cs2);
                    }
                },
            }
        }
    }
}

impl<T> Btree<T> {
    /// Appends `val` at the node addressed by `path`, creating the route
    /// to it on demand.  Fails, mutating nothing below the failing level,
    /// when a traversed segment is empty.
    pub fn insert(&mut self, path: &str, val: T) -> (r: bool)
        requires
            old(self).wf(),
        ensures
            final(self).wf(),
            final(self)@ == old(self)@.insert_at(old(self).delim@, path@, val),
            final(self).delim == old(self).delim,
            r == insert_ok(old(self).delim@, path@),
        decreases path@.len(),
    {
        let ghost d = self.delim@;
        let ghost m0 = self.model();
        let delim = self.delim.clone();
        let stripped = strip_leading(path, delim.as_str());
        proof {
            lemma_insert_at_wf(m0, d, path@, val);
        }
        if stripped.is_empty() {
            self.var.push(val);
            return true;
        }
        proof {
            lemma_find_delim_bounds(stripped@, d);
            lemma_tail_shorter(d, stripped@);
        }
        let plen = stripped.unicode_len();
        let dlen = delim.as_str().unicode_len();
        let (head, tail): (&str, &str) = match find_first(stripped, delim.as_str()) {
            Some(i) => (stripped.substring_char(0, i), stripped.substring_char(i + dlen, plen)),
            None => (stripped, ""),
        };
        proof {
            reveal_strlit("");
            assert(head@ == head_of(d, stripped@));
            assert(tail@ =~= tail_of(d, stripped@));
        }
        if head.is_empty() {
            proof {
                assert(final(self)@ =~~= old(self)@.insert_at(old(self).delim@, path@, val));
            }
            return false;
        }
        proof {
            lemma_children_model_index(self.parts@);
            lemma_delims_ok_index(d, self.parts@);
            lemma_kids_wf_index(m0.children);
        }
        match find_child(&self.parts, head) {
            Some(i) => {
                let ghost parts0 = self.parts@;
                proof {
                    lemma_find_key_props(children_model(parts0), head@);
                }
                let (key, mut child) = self.parts.remove(i);
                let r = child.insert(tail, val);
                self.parts.insert(i, (key, child));
                proof {
                    assert(self.parts@ =~= parts0.update(i as int, (key, child)));
                    lemma_children_model_index(self.parts@);
                    assert(children_model(self.parts@) =~= children_model(parts0).update(
                        i as int,
                        (head@, child.model()),
                    ));
                    assert(final(self)@ =~~= m0.insert_at(d, path@, val));
                    assert forall|k: int|
                        0 <= k < self.parts@.len() implies (#[trigger] self.parts@[k].1).delim@
                        == d && self.parts@[k].1.delims_ok() by {
                        if k != i {
                            assert(self.parts@[k] == parts0[k]);
                        }
                    }
                    lemma_delims_ok_build(d, self.parts@);
                }
                r
            },
            None => {
                let ghost parts0 = self.parts@;
                let mut child = Btree {
                    delim: self.delim.clone(),
                    head: head.to_owned(),
                    var: Vec::new(),
                    parts: Vec::new(),
                };
                proof {
                    assert(child.model().children =~= Seq::<(Seq<char>, NodeModel<T>)>::empty());
                    assert(child.model() =~~= NodeModel::<T>::new_child(head@));
                    assert(child.wf());
                }
                let r = child.insert(tail, val);
                let key = head.to_owned();
                self.parts.push((key, child));
                proof {
                    lemma_children_model_index(self.parts@);
                    assert(children_model(self.parts@) =~= children_model(parts0).push(
                        (head@, child.model()),
                    ));
                    assert(final(self)@ =~~= m0.insert_at(d, path@, val));
                    assert forall|k: int|
                        0 <= k < self.parts@.len() implies (#[trigger] self.parts@[k].1).delim@
                        == d && self.parts@[k].1.delims_ok() by {
                        if k < parts0.len() {
                            assert(self.parts@[k] == parts0[k]);
                        }
                    }
                    lemma_delims_ok_build(d, self.parts@);
                }
                r
            },
        }
    }
}


/// Replacing keeps the node's label and preserves well-formedness.
pub proof fn lemma_replace_at_wf<T>(m: NodeModel<T>, d: Seq<char>, p: Seq<char>, vs: Seq<T>)
    ensures
        m.replace_at(d, p, vs).label == m.label,
        m.wf() ==> m.replace_at(d, p, vs).wf(),
    decreases p.len(),
{
    let q = strip_lead(d, p);
    if q.len() == 0 {
    } else {
        lemma_tail_shorter(d, q);
        let h = head_of(d, q);
        let t = tail_of(d, q);
        if h.len() == 0 {
        } else {
            lemma_find_key_props(m.children, h);
            match find_key(m.children, h) {
                Some(i) => {
                    lemma_replace_at_wf(m.children[i].1, d, t, vs);
                    if m.wf() {
                        lemma_kids_wf_index(m.children);
                        let cs2 = m.children.update(i, (h, m.children[i].1.replace_at(d, t, vs)));
                        assert forall|k: int| 0 <= k < cs2.len() implies (#[trigger] cs2[k].1).wf()
                            && cs2[k].1.label == cs2[k].0 by {
                            if k != i {
                                assert(cs2[k] == m.children[k]);
                            }
                        }
                        assert forall|a: int, b: int| 0 <= a < b < cs2.len() implies (
                        #[trigger] cs2[a].0) != (#[trigger] cs2[b].0) by {
                            assert(cs2[a].0 == m.children[a].0);
                            assert(cs2[b].0 == m.children[b].0);
                        }
                        lemma_kids_wf_build(cs2);
                    }
                },
                None => {
                    let nc = NodeModel::<T>::new_child(h).replace_at(d, t, vs);
                    lemma_replace_at_wf(NodeModel::<T>::new_child(h), d, t, vs);
                    assert(NodeModel::<T>::new_child(h).wf());
                    if m.wf() {
                        lemma_kids_wf_index(m.children);
                        let cs2 = m.children.push((h, nc));
                        assert forall|k: int| 0 <= k < cs2.len() implies (#[trigger] cs2[k].1).wf()
                            && cs2[k].1.label == cs2[k].0 by {
                            if k < m.children.len() {
                                assert(cs2[k] == m.children[k]);
                            }
                        }
                        assert forall|a: int, b: int| 0 <= a < b < cs2.len() implies (
                        #[trigger] cs2[a].0) != (#[trigger] cs2[b].0) by {
                            assert(cs2[a].0 == m.children[a].0);
                            if b < m.children.len() {
                                assert(cs2[b].0 == m.children[b].0);
                            }
                        }
                        lemma_kids_wf_build(cs2);
                    }
                },
            }
        }
    }
}

impl<T> Btree<T> {
    /// Assigns the full ordered value sequence of the node addressed by
    /// `path`, overwriting whatever it held, creating the route to it on
    /// demand.  Fails, mutating nothing below the failing level, when a
    /// traversed segment is empty.
    pub fn replace(&mut self, path: &str, values: Vec<T>) -> (r: bool)
        requires
            old(self).wf(),
        ensures
            final(self).wf(),
            final(self)@ == old(self)@.replace_at(old(self).delim@, path@, values@),
            final(self).delim == old(self).delim,
            r == insert_ok(old(self).delim@, path@),
        decreases path@.len(),
    {
        let ghost d = self.delim@;
        let ghost m0 = self.model();
        let delim = self.delim.clone();
        let stripped = strip_leading(path, delim.as_str());
        proof {
            lemma_replace_at_wf(m0, d, path@, values@);
        }
        if stripped.is_empty() {
            self.var = values;
            return true;
        }
        proof {
            lemma_find_delim_bounds(stripped@, d);
            lemma_tail_shorter(d, stripped@);
        }
        let plen = stripped.unicode_len();
        let dlen = delim.as_str().unicode_len();
        let (head, tail): (&str, &str) = match find_first(stripped, delim.as_str()) {
            Some(i) => (stripped.substring_char(0, i), stripped.substring_char(i + dlen, plen)),
            None => (stripped, ""),
        };
        proof {
            reveal_strlit("");
            assert(head@ == head_of(d, stripped@));
            assert(tail@ =~= tail_of(d, stripped@));
        }
        if head.is_empty() {
            proof {
                assert(final(self)@ =~~= old(self)@.replace_at(old(self).delim@, path@, values@));
            }
            return false;
        }
        proof {
            lemma_children_model_index(self.parts@);
            lemma_delims_ok_index(d, self.parts@);
            lemma_kids_wf_index(m0.children);
        }
        match find_child(&self.parts, head) {
            Some(i) => {
                let ghost parts0 = self.parts@;
                proof {
                    lemma_find_key_props(children_model(parts0), head@);
                }
                let (key, mut child) = self.parts.remove(i);
                let r = child.replace(tail, values);
                self.parts.insert(i, (key, child));
                proof {
                    assert(self.parts@ =~= parts0.update(i as int, (key, child)));
                    lemma_children_model_index(self.parts@);
                    assert(children_model(self.parts@) =~= children_model(parts0).update(
                        i as int,
                        (head@, child.model()),
                    ));
                    assert(final(self)@ =~~= m0.replace_at(d, path@, values@));
                    assert forall|k: int|
                        0 <= k < self.parts@.len() implies (#[trigger] self.parts@[k].1).delim@
                        == d && self.parts@[k].1.delims_ok() by {
                        if k != i {
                            assert(self.parts@[k] == parts0[k]);
                        }
                    }
                    lemma_delims_ok_build(d, self.parts@);
                }
                r
            },
            None => {
                let ghost parts0 = self.parts@;
                let mut child = Btree {
                    delim: self.delim.clone(),
                    head: head.to_owned(),
                    var: Vec::new(),
                    parts: Vec::new(),
                };
                proof {
                    assert(child.model().children =~= Seq::<(Seq<char>, NodeModel<T>)>::empty());
                    assert(child.model() =~~= NodeModel::<T>::new_child(head@));
                    assert(child.wf());
                }
                let r = child.replace(tail, values);
                let key = head.to_owned();
                self.parts.push((key, child));
                proof {
                    lemma_children_model_index(self.parts@);
                    assert(children_model(self.parts@) =~= children_model(parts0).push(
                        (head@, child.model()),
                    ));
                    assert(final(self)@ =~~= m0.replace_at(d, path@, values@));
                    assert forall|k: int|
                        0 <= k < self.parts@.len() implies (#[trigger] self.parts@[k].1).delim@
                        == d && self.parts@[k].1.delims_ok() by {
                        if k < parts0.len() {
                            assert(self.parts@[k] == parts0[k]);
                        }
                    }
                    lemma_delims_ok_build(d, self.parts@);
                }
                r
            },
        }
    }
}


/// Removing keeps the node's label and preserves well-formedness.
pub proof fn lemma_remove_at_wf<T>(m: NodeModel<T>, d: Seq<char>, p: Seq<char>)
    ensures
        m.remove_at(d, p).0.label == m.label,
        m.wf() ==> m.remove_at(d, p).0.wf(),
    decreases p.len(),
{
    let q = strip_lead(d, p);
    if q.len() == 0 {
    } else {
        lemma_tail_shorter(d, q);
        let h = head_of(d, q);
        let t = tail_of(d, q);
        if h.len() == 0 {
        } else if t.len() == 0 {
            lemma_find_key_props(m.children, h);
            match find_key(m.children, h) {
                Some(i) => {
                    if m.wf() {
                        lemma_kids_wf_index(m.children);
                        let cs2 = m.children.remove(i);
                        assert forall|k: int| 0 <= k < cs2.len() implies (#[trigger] cs2[k].1).wf()
                            && cs2[k].1.label == cs2[k].0 by {
                            if k < i {
                                assert(cs2[k] == m.children[k]);
                            } else {
                                assert(cs2[k] == m.children[k + 1]);
                            }
                        }
                        assert forall|a: int, b: int| 0 <= a < b < cs2.len() implies (
                        #[trigger] cs2[a].0) != (#[trigger] cs2[b].0) by {
                            if a < i {
                                assert(cs2[a] == m.children[a]);
                            } else {
                                assert(cs2[a] == m.children[a + 1]);
                            }
                            if b < i {
                                assert(cs2[b] == m.children[b]);
                            } else {
                                assert(cs2[b] == m.children[b + 1]);
                            }
                        }
                        lemma_kids_wf_build(cs2);
                    }
                },
                None => {},
            }
        } else {
            lemma_find_key_props(m.children, h);
            match find_key(m.children, h) {
                Some(i) => {
                    lemma_remove_at_wf(m.children[i].1, d, t);
                    if m.wf() {
                        lemma_kids_wf_index(m.children);
                        let cs2 = m.children.update(i, (h, m.children[i].1.remove_at(d, t).0));
                        assert forall|k: int| 0 <= k < cs2.len() implies (#[trigger] cs2[k].1).wf()
                            && cs2[k].1.label == cs2[k].0 by {
                            if k != i {
                                assert(cs2[k] == m.children[k]);
                            }
                        }
                        assert forall|a: int, b: int| 0 <= a < b < cs2.len() implies (
                        #[trigger] cs2[a].0) != (#[trigger] cs2[b].0) by {
                            assert(cs2[a].0 == m.children[a].0);
                            assert(cs2[b].0 == m.children[b].0);
                        }
                        lemma_kids_wf_build(cs2);
                    }
                },
                None => {},
            }
        }
    }
}

impl<T> Btree<T> {
    /// Detaches the child edge addressed by `path`, deleting that entire
    /// subtree, and reports whether the edge existed.  An empty path, an
    /// empty traversed segment, or a missing route all fail without
    /// mutation.
    pub fn remove(&mut self, path: &str) -> (r: bool)
        requires
            old(self).wf(),
        ensures
            final(self).wf(),
            final(self)@ == old(self)@.remove_at(old(self).delim@, path@).0,
            r == old(self)@.remove_at(old(self).delim@, path@).1,
            final(self).delim == old(self).delim,
        decreases path@.len(),
    {
        let ghost d = self.delim@;
        let ghost m0 = self.model();
        let delim = self.delim.clone();
        let stripped = strip_leading(path, delim.as_str());
        proof {
            lemma_remove_at_wf(m0, d, path@);
        }
        if stripped.is_empty() {
            return false;
        }
        proof {
            lemma_find_delim_bounds(stripped@, d);
            lemma_tail_shorter(d, stripped@);
        }
        let plen = stripped.unicode_len();
        let dlen = delim.as_str().unicode_len();
        let (head, tail): (&str, &str) = match find_first(stripped, delim.as_str()) {
            Some(i) => (stripped.substring_char(0, i), stripped.substring_char(i + dlen, plen)),
            None => (stripped, ""),
        };
        proof {
            reveal_strlit("");
            assert(head@ == head_of(d, stripped@));
            assert(tail@ =~= tail_of(d, stripped@));
        }
        if head.is_empty() {
            return false;
        }
        proof {
            lemma_children_model_index(self.parts@);
            lemma_delims_ok_index(d, self.parts@);
            lemma_kids_wf_index(m0.children);
        }
        if tail.is_empty() {
            match find_child(&self.parts, head) {
                Some(i) => {
                    let ghost parts0 = self.parts@;
                    let _ = self.parts.remove(i);
                    proof {
                        lemma_children_model_index(self.parts@);
                        assert(children_model(self.parts@) =~= children_model(parts0).remove(
                            i as int,
                        ));
                        assert(final(self)@ =~~= m0.remove_at(d, path@).0);
                        assert forall|k: int|
                            0 <= k < self.parts@.len() implies (#[trigger] self.parts@[k].1).delim@
                            == d && self.parts@[k].1.delims_ok() by {
                            if k < i {
                                assert(self.parts@[k] == parts0[k]);
                            } else {
                                assert(self.parts@[k] == parts0[k + 1]);
                            }
                        }
                        lemma_delims_ok_build(d, self.parts@);
                    }
                    true
                },
                None => false,
            }
        } else {
            match find_child(&self.parts, head) {
                Some(i) => {
                    let ghost parts0 = self.parts@;
                    proof {
                        lemma_find_key_props(children_model(parts0), head@);
                    }
                    let (key, mut child) = self.parts.remove(i);
                    let r = child.remove(tail);
                    self.parts.insert(i, (key, child));
                    proof {
                        assert(self.parts@ =~= parts0.update(i as int, (key, child)));
                        lemma_children_model_index(self.parts@);
                        assert(children_model(self.parts@) =~= children_model(parts0).update(
                            i as int,
                            (head@, child.model()),
                        ));
                        assert(final(self)@ =~~= m0.remove_at(d, path@).0);
                        assert forall|k: int|
                            0 <= k < self.parts@.len() implies (#[trigger] self.parts@[k].1).delim@
                            == d && self.parts@[k].1.delims_ok() by {
                            if k != i {
                                assert(self.parts@[k] == parts0[k]);
                            }
                        }
                        lemma_delims_ok_build(d, self.parts@);
                    }
                    r
                },
                None => false,
            }
        }
    }
}


impl<T> Btree<T> {
    /// Borrowing lookup: a live reference to the node addressed by
    /// `path`, or nothing when the route does not exist.  An empty (or
    /// empty-headed) remaining path stops at the current node.
    pub fn node_for_ref<'a>(&'a self, path: &str) -> (r: Option<&'a Btree<T>>)
        requires
            self.wf(),
        ensures
            match r {
                Some(n) => {
                    &&& self@.node_at(self.delim@, path@) == Some(n@)
                    &&& n.wf()
                    &&& n.delim@ == self.delim@
                },
                None => self@.node_at(self.delim@, path@) is None,
            },
        decreases path@.len(),
    {
        let ghost d = self.delim@;
        let ghost m0 = self.model();
        let stripped = strip_leading(path, self.delim.as_str());
        if stripped.is_empty() {
            return Some(self);
        }
        proof {
            lemma_find_delim_bounds(stripped@, d);
            lemma_tail_shorter(d, stripped@);
        }
        let plen = stripped.unicode_len();
        let dlen = self.delim.as_str().unicode_len();
        let (head, tail): (&str, &str) = match find_first(stripped, self.delim.as_str()) {
            Some(i) => (stripped.substring_char(0, i), stripped.substring_char(i + dlen, plen)),
            None => (stripped, ""),
        };
        proof {
            reveal_strlit("");
            assert(head@ == head_of(d, stripped@));
            assert(tail@ =~= tail_of(d, stripped@));
        }
        if head.is_empty() {
            return Some(self);
        }
        proof {
            lemma_children_model_index(self.parts@);
            lemma_delims_ok_index(d, self.parts@);
            lemma_kids_wf_index(m0.children);
        }
        match find_child(&self.parts, head) {
            Some(i) => {
                let child = &self.parts[i].1;
                child.node_for_ref(tail)
            },
            None => None,
        }
    }

    /// Borrowing fetch: the values of the node addressed by `path`.
    /// Distinguishes an absent node (nothing) from a present node that
    /// happens to hold no values (an empty, but present, vector).
    pub fn fetch_ref<'a>(&'a self, path: &str) -> (r: Option<&'a Vec<T>>)
        requires
            self.wf(),
        ensures
            match r {
                Some(v) => {
                    &&& self@.node_at(self.delim@, path@) matches Some(n) && v@ == n.values
                    &&& v@ == self@.fetch_at(self.delim@, path@)
                },
                None => {
                    &&& self@.node_at(self.delim@, path@) is None
                    &&& self@.fetch_at(self.delim@, path@) == Seq::<T>::empty()
                },
            },
    {
        match self.node_for_ref(path) {
            Some(n) => Some(&n.var),
            None => None,
        }
    }
}


// ---------------------------------------------------------------------------
// Deep copies
// ---------------------------------------------------------------------------

/// Relates a subtree model to the model of its deep copy: same shape,
/// same labels and child names, and each value a possible output of
/// `T::clone` on the original.
pub open spec fn models_cloned<T: Clone>(a: NodeModel<T>, b: NodeModel<T>) -> bool
    decreases a,
{
    &&& b.label == a.label
    &&& b.values.len() == a.values.len()
    &&& (forall|i: int|
        0 <= i < a.values.len() ==> vstd::pervasive::cloned::<T>(
            a.values[i],
            #[trigger] b.values[i],
        ))
    &&& children_cloned(a.children, b.children)
}

/// Pointwise `models_cloned` over two child sequences; see above.
pub open spec fn children_cloned<T: Clone>(
    x: Seq<(Seq<char>, NodeModel<T>)>,
    y: Seq<(Seq<char>, NodeModel<T>)>,
) -> bool
    decreases x,
{
    &&& y.len() == x.len()
    &&& if x.len() == 0 {
        true
    } else {
        &&& y[0].0 == x[0].0
        &&& models_cloned(x[0].1, y[0].1)
        &&& children_cloned(x.subrange(1, x.len() as int), y.subrange(1, y.len() as int))
    }
}

/// Unrolls `children_cloned` into pointwise facts.
pub proof fn lemma_children_cloned_index<T: Clone>(
    x: Seq<(Seq<char>, NodeModel<T>)>,
    y: Seq<(Seq<char>, NodeModel<T>)>,
)
    requires
        children_cloned(x, y),
    ensures
        y.len() == x.len(),
        forall|i: int| 0 <= i < x.len() ==> (#[trigger] y[i].0) == x[i].0,
        forall|i: int| 0 <= i < x.len() ==> models_cloned(x[i].1, #[trigger] y[i].1),
    decreases x.len(),
{
    if x.len() > 0 {
        let x1 = x.subrange(1, x.len() as int);
        let y1 = y.subrange(1, y.len() as int);
        lemma_children_cloned_index(x1, y1);
        assert forall|j: int| 1 <= j < x.len() implies x1[j - 1] == x[j] && y1[j - 1] == y[j] by {}
    }
}

/// Rebuilds `children_cloned` from pointwise facts.
pub proof fn lemma_children_cloned_build<T: Clone>(
    x: Seq<(Seq<char>, NodeModel<T>)>,
    y: Seq<(Seq<char>, NodeModel<T>)>,
)
    requires
        y.len() == x.len(),
        forall|i: int| 0 <= i < x.len() ==> (#[trigger] y[i].0) == x[i].0,
        forall|i: int| 0 <= i < x.len() ==> models_cloned(x[i].1, #[trigger] y[i].1),
    ensures
        children_cloned(x, y),
    decreases x.len(),
{
    if x.len() > 0 {
        let x1 = x.subrange(1, x.len() as int);
        let y1 = y.subrange(1, y.len() as int);
        assert forall|j: int| 1 <= j < x.len() implies x1[j - 1] == x[j] && y1[j - 1] == y[j] by {}
        assert forall|i: int| 0 <= i < x1.len() implies (#[trigger] y1[i].0) == x1[i].0
            && models_cloned(x1[i].1, y1[i].1) by {
            assert(x1[i] == x[i + 1]);
            assert(y1[i] == y[i + 1]);
        }
        lemma_children_cloned_build(x1, y1);
    }
}

/// A deep copy preserves well-formedness.
pub proof fn lemma_models_cloned_wf<T: Clone>(a: NodeModel<T>, b: NodeModel<T>)
    requires
        models_cloned(a, b),
        a.wf(),
    ensures
        b.wf(),
    decreases a,
{
    lemma_children_cloned_index(a.children, b.children);
    lemma_kids_wf_index(a.children);
    assert forall|k: int| 0 <= k < b.children.len() implies (#[trigger] b.children[k].1).wf()
        && b.children[k].1.label == b.children[k].0 by {
        lemma_models_cloned_wf(a.children[k].1, b.children[k].1);
    }
    assert forall|i: int, j: int| 0 <= i < j < b.children.len() implies (
    #[trigger] b.children[i].0) != (#[trigger] b.children[j].0) by {
        assert(b.children[i].0 == a.children[i].0);
        assert(b.children[j].0 == a.children[j].0);
    }
    lemma_kids_wf_build(b.children);
}

impl<T: Clone> Clone for Btree<T> {
    /// Deep copy of the subtree.  Labels, delimiters and child names are
    /// kept exactly; each value is copied with `T::clone`.
    fn clone(&self) -> (r: Self)
        ensures
            models_cloned(self@, r@),
            r.delim@ == self.delim@,
            self.wf() ==> r.wf(),
        decreases self,
    {
        let ghost d = self.delim@;
        proof {
            lemma_children_model_index(self.parts@);
        }
        let mut new_parts: Vec<(String, Btree<T>)> = Vec::new();
        let n = self.parts.len();
        for i in 0..n
            invariant
                n == self.parts@.len(),
                new_parts@.len() == i,
                forall|k: int| 0 <= k < i ==> (#[trigger] new_parts@[k].0)@ == self.parts@[k].0@,
                forall|k: int|
                    0 <= k < i ==> models_cloned(
                        self.parts@[k].1.model(),
                        (#[trigger] new_parts@[k].1).model(),
                    ),
                forall|k: int|
                    0 <= k < i ==> (#[trigger] new_parts@[k].1).delim@ == self.parts@[k].1.delim@,
                forall|k: int|
                    0 <= k < i ==> (self.parts@[k].1.wf() ==> (#[trigger] new_parts@[k].1).wf()),
            decreases n - i,
        {
            let key = self.parts[i].0.clone();
            let sub = self.parts[i].1.clone();
            new_parts.push((key, sub));
        }
        let r = Btree {
            delim: self.delim.clone(),
            head: self.head.clone(),
            var: self.var.clone(),
            parts: new_parts,
        };
        proof {
            lemma_children_model_index(r.parts@);
            assert(children_model(r.parts@).len() == children_model(self.parts@).len());
            lemma_children_cloned_build(children_model(self.parts@), children_model(r.parts@));
            assert(models_cloned(self@, r@));
            if self.wf() {
                lemma_models_cloned_wf(self@, r@);
                lemma_delims_ok_index(d, self.parts@);
                assert forall|k: int|
                    0 <= k < r.parts@.len() implies (#[trigger] r.parts@[k].1).delim@ == d
                    && r.parts@[k].1.delims_ok() by {
                    lemma_kids_wf_index(self@.children);
                    assert(children_model(self.parts@)[k] == (
                        self.parts@[k].0@,
                        self.parts@[k].1.model(),
                    ));
                    assert(self@.children == children_model(self.parts@));
                    assert(self@.children[k].1 == self.parts@[k].1.model());
                    assert(self@.children[k].1.wf());
                    assert(self.parts@[k].1.model().wf());
                    assert(self.parts@[k].1.delims_ok());
                    assert(self.parts@[k].1.wf());
                    assert(r.parts@[k].1.wf());
                }
                lemma_delims_ok_build(d, r.parts@);
            }
        }
        r
    }
}


impl<T: Clone> Btree<T> {
    /// Owning lookup: a deep copy of the subtree addressed by `path`,
    /// free to outlive this tree, or nothing when the route does not
    /// exist.
    pub fn node_for(&self, path: &str) -> (r: Option<Btree<T>>)
        requires
            self.wf(),
        ensures
            match r {
                Some(n) => {
                    &&& self@.node_at(self.delim@, path@) matches Some(m) && models_cloned(m, n@)
                    &&& n.wf()
                    &&& n.delim@ == self.delim@
                },
                None => self@.node_at(self.delim@, path@) is None,
            },
    {
        match self.node_for_ref(path) {
            Some(n) => Some(n.clone()),
            None => None,
        }
    }

    /// Owning fetch: a copy of the values of the node addressed by
    /// `path`.  An absent node and a present but valueless node both
    /// yield an empty result.
    pub fn fetch(&self, path: &str) -> (r: Vec<T>)
        requires
            self.wf(),
        ensures
            r@.len() == self@.fetch_at(self.delim@, path@).len(),
            forall|i: int|
                0 <= i < r@.len() ==> vstd::pervasive::cloned::<T>(
                    self@.fetch_at(self.delim@, path@)[i],
                    #[trigger] r@[i],
                ),
    {
        match self.fetch_ref(path) {
            Some(v) => v.clone(),
            None => Vec::new(),
        }
    }

    /// Direct children's subtrees, as deep copies, in insertion order.
    pub fn nodes(&self) -> (r: Vec<Btree<T>>)
        requires
            self.wf(),
        ensures
            r@.len() == self@.children.len(),
            forall|i: int|
                0 <= i < r@.len() ==> models_cloned(self@.children[i].1, (#[trigger] r@[i])@),
            forall|i: int| 0 <= i < r@.len() ==> (#[trigger] r@[i]).wf(),
            forall|i: int| 0 <= i < r@.len() ==> (#[trigger] r@[i]).delim@ == self.delim@,
    {
        proof {
            lemma_children_model_index(self.parts@);
            lemma_delims_ok_index(self.delim@, self.parts@);
            lemma_kids_wf_index(self@.children);
            assert forall|k: int|
                0 <= k < self.parts@.len() implies (#[trigger] self.parts@[k].1).model().wf()
                && self.parts@[k].1.delims_ok() && self.parts@[k].1.delim@ == self.delim@ by {
                assert(self@.children[k] == (self.parts@[k].0@, self.parts@[k].1.model()));
                assert(self@.children[k].1.wf());
            }
        }
        let mut out: Vec<Btree<T>> = Vec::new();
        let n = self.parts.len();
        for i in 0..n
            invariant
                self.wf(),
                n == self.parts@.len(),
                self@.children.len() == self.parts@.len(),
                forall|k: int|
                    0 <= k < self.parts@.len() ==> #[trigger] self@.children[k] == (
                        self.parts@[k].0@,
                        self.parts@[k].1.model(),
                    ),
                forall|k: int|
                    0 <= k < self.parts@.len() ==> (#[trigger] self.parts@[k].1).model().wf()
                        && self.parts@[k].1.delims_ok()
                        && self.parts@[k].1.delim@ == self.delim@,
                out@.len() == i,
                forall|k: int|
                    0 <= k < i ==> models_cloned(self@.children[k].1, (#[trigger] out@[k])@),
                forall|k: int| 0 <= k < i ==> (#[trigger] out@[k]).wf(),
                forall|k: int| 0 <= k < i ==> (#[trigger] out@[k]).delim@ == self.delim@,
            decreases n - i,
        {
            proof {
                assert(self@.children[i as int].1 == self.parts@[i as int].1.model());
                assert(self.parts@[i as int].1.wf());
            }
            out.push(self.parts[i].1.clone());
        }
        out
    }
}

impl<T> Btree<T> {
    /// Direct children's segment names, in insertion order.
    pub fn enumerate(&self) -> (r: Vec<String>)
        ensures
            r@.len() == self@.children.len(),
            forall|i: int| 0 <= i < r@.len() ==> (#[trigger] r@[i])@ == self@.children[i].0,
    {
        proof {
            lemma_children_model_index(self.parts@);
        }
        let mut out: Vec<String> = Vec::new();
        let n = self.parts.len();
        for i in 0..n
            invariant
                n == self.parts@.len(),
                self@.children.len() == self.parts@.len(),
                forall|k: int|
                    0 <= k < self.parts@.len() ==> #[trigger] self@.children[k] == (
                        self.parts@[k].0@,
                        self.parts@[k].1.model(),
                    ),
                out@.len() == i,
                forall|k: int| 0 <= k < i ==> (#[trigger] out@[k])@ == self@.children[k].0,
            decreases n - i,
        {
            out.push(self.parts[i].0.clone());
        }
        out
    }
}


/// Extending a child prefix by one child appends that child's items.
pub proof fn lemma_kids_items_snoc<T>(cs: Seq<(Seq<char>, NodeModel<T>)>, k: int)
    requires
        0 <= k < cs.len(),
    ensures
        kids_items(cs.subrange(0, k + 1)) == kids_items(cs.subrange(0, k)) + cs[k].1.all_items(),
    decreases k,
{
    let a = cs.subrange(0, k + 1);
    if k == 0 {
        assert(a.subrange(1, 1) =~= Seq::<(Seq<char>, NodeModel<T>)>::empty());
        assert(cs.subrange(0, 0) =~= Seq::<(Seq<char>, NodeModel<T>)>::empty());
        assert(kids_items(a) =~= kids_items(cs.subrange(0, 0)) + cs[0].1.all_items());
    } else {
        let cs1 = cs.subrange(1, cs.len() as int);
        lemma_kids_items_snoc(cs1, k - 1);
        assert(a.subrange(1, k + 1) =~= cs1.subrange(0, k));
        assert(cs.subrange(0, k).subrange(1, k) =~= cs1.subrange(0, k - 1));
        assert(cs1[k - 1] == cs[k]);
        assert(kids_items(a) == cs[0].1.all_items() + kids_items(cs1.subrange(0, k)));
        assert(kids_items(cs.subrange(0, k)) == cs[0].1.all_items() + kids_items(
            cs1.subrange(0, k - 1),
        ));
        assert(kids_items(a) =~= kids_items(cs.subrange(0, k)) + cs[k].1.all_items());
    }
}

impl<T: Clone> Btree<T> {
    /// Appends a copy of every value of this subtree, in pre-order, to
    /// `out`.
    fn items_into(&self, out: &mut Vec<T>)
        ensures
            final(out)@.len() == old(out)@.len() + self@.all_items().len(),
            forall|i: int| 0 <= i < old(out)@.len() ==> #[trigger] final(out)@[i] == old(out)@[i],
            forall|i: int|
                0 <= i < self@.all_items().len() ==> vstd::pervasive::cloned::<T>(
                    self@.all_items()[i],
                    #[trigger] final(out)@[old(out)@.len() + i],
                ),
        decreases self,
    {
        let ghost base = out@;
        let ghost m = self@;
        let ghost cs = children_model(self.parts@);
        proof {
            lemma_children_model_index(self.parts@);
        }
        let nv = self.var.len();
        for i in 0..nv
            invariant
                nv == self.var@.len(),
                out@.len() == base.len() + i,
                forall|k: int| 0 <= k < base.len() ==> #[trigger] out@[k] == base[k],
                forall|k: int|
                    0 <= k < i ==> vstd::pervasive::cloned::<T>(
                        self.var@[k],
                        #[trigger] out@[base.len() + k],
                    ),
            decreases nv - i,
        {
            let v = &self.var[i];
            out.push(v.clone());
        }
        let n = self.parts.len();
        for i in 0..n
            invariant
                n == self.parts@.len(),
                cs == children_model(self.parts@),
                cs.len() == self.parts@.len(),
                forall|k: int|
                    0 <= k < self.parts@.len() ==> #[trigger] cs[k] == (
                        self.parts@[k].0@,
                        self.parts@[k].1.model(),
                    ),
                out@.len() == base.len() + self.var@.len() + kids_items(
                    cs.subrange(0, i as int),
                ).len(),
                forall|k: int| 0 <= k < base.len() ==> #[trigger] out@[k] == base[k],
                forall|k: int|
                    0 <= k < self.var@.len() ==> vstd::pervasive::cloned::<T>(
                        self.var@[k],
                        #[trigger] out@[base.len() + k],
                    ),
                forall|k: int|
                    0 <= k < kids_items(cs.subrange(0, i as int)).len()
                        ==> vstd::pervasive::cloned::<T>(
                        kids_items(cs.subrange(0, i as int))[k],
                        #[trigger] out@[base.len() + self.var@.len() + k],
                    ),
            decreases n - i,
        {
            let ghost done = kids_items(cs.subrange(0, i as int));
            let ghost out0 = out@;
            let child = &self.parts[i].1;
            child.items_into(out);
            proof {
                lemma_kids_items_snoc(cs, i as int);
                assert(kids_items(cs.subrange(0, i + 1)) == done + child.model().all_items());
                assert forall|k: int|
                    0 <= k < kids_items(cs.subrange(0, i + 1)).len()
                        implies vstd::pervasive::cloned::<T>(
                    kids_items(cs.subrange(0, i + 1))[k],
                    #[trigger] out@[base.len() + self.var@.len() + k],
                ) by {
                    if k < done.len() {
                        assert(kids_items(cs.subrange(0, i + 1))[k] == done[k]);
                        assert(vstd::pervasive::cloned::<T>(
                            done[k],
                            out0[base.len() + self.var@.len() + k],
                        ));
                        assert(out@[base.len() + self.var@.len() + k] == out0[base.len()
                            + self.var@.len() + k]);
                    } else {
                        let j = k - done.len();
                        assert(kids_items(cs.subrange(0, i + 1))[k]
                            == child.model().all_items()[j]);
                        assert(vstd::pervasive::cloned::<T>(
                            child.model().all_items()[j],
                            out@[out0.len() + j],
                        ));
                        assert(out0.len() + j == base.len() + self.var@.len() + k);
                    }
                }
            }
        }
        proof {
            assert(cs.subrange(0, n as int) =~= cs);
            assert(kids_items(cs.subrange(0, n as int)) == kids_items(cs));
            assert(m.all_items() == m.values + kids_items(cs));
            assert forall|k: int|
                0 <= k < m.all_items().len() implies vstd::pervasive::cloned::<T>(
                m.all_items()[k],
                #[trigger] out@[base.len() + k],
            ) by {
                if k < m.values.len() {
                    assert(m.all_items()[k] == self.var@[k]);
                    assert(vstd::pervasive::cloned::<T>(self.var@[k], out@[base.len() + k]));
                } else {
                    let j = k - m.values.len();
                    assert(m.all_items()[k] == kids_items(cs)[j]);
                    assert(vstd::pervasive::cloned::<T>(
                        kids_items(cs)[j],
                        out@[base.len() + self.var@.len() + j],
                    ));
                    assert(base.len() + self.var@.len() + j == base.len() + k);
                }
            }
        }
    }

    /// Every value of this subtree, in pre-order: this node's own values
    /// first, then each child subtree's items in turn.
    pub fn items(&self) -> (r: Vec<T>)
        ensures
            r@.len() == self@.all_items().len(),
            forall|i: int|
                0 <= i < r@.len() ==> vstd::pervasive::cloned::<T>(
                    self@.all_items()[i],
                    #[trigger] r@[i],
                ),
    {
        let mut out: Vec<T> = Vec::new();
        let ghost empty0 = out@;
        self.items_into(&mut out);
        proof {
            assert forall|i: int|
                0 <= i < out@.len() implies vstd::pervasive::cloned::<T>(
                self@.all_items()[i],
                #[trigger] out@[i],
            ) by {
                assert(vstd::pervasive::cloned::<T>(
                    self@.all_items()[i],
                    out@[empty0.len() + i],
                ));
                assert(empty0.len() + i == i);
            }
        }
        out
    }
}


// ---------------------------------------------------------------------------
// Laws of the model operations
// ---------------------------------------------------------------------------

/// `kids_items` distributes over concatenation of child sequences.
pub proof fn lemma_kids_items_concat<T>(
    a: Seq<(Seq<char>, NodeModel<T>)>,
    b: Seq<(Seq<char>, NodeModel<T>)>,
)
    ensures
        kids_items(a + b) == kids_items(a) + kids_items(b),
    decreases a.len(),
{
    if a.len() == 0 {
        assert(a + b =~= b);
        assert(kids_items(a) + kids_items(b) =~= kids_items(b));
    } else {
        let a1 = a.subrange(1, a.len() as int);
        lemma_kids_items_concat(a1, b);
        assert((a + b).subrange(1, (a + b).len() as int) =~= a1 + b);
        assert((a + b)[0] == a[0]);
        assert(kids_items(a + b) == a[0].1.all_items() + kids_items(a1 + b));
        assert(kids_items(a + b) =~= kids_items(a) + kids_items(b));
    }
}

/// The items of a single-child sequence are that child's items.
pub proof fn lemma_kids_items_single<T>(x: (Seq<char>, NodeModel<T>))
    ensures
        kids_items(seq![x]) == x.1.all_items(),
{
    let s = seq![x];
    let e = Seq::<(Seq<char>, NodeModel<T>)>::empty();
    assert(s.subrange(1, 1) =~= e);
    assert(kids_items(e) == Seq::<T>::empty());
    assert(kids_items(s) == x.1.all_items() + kids_items(s.subrange(1, 1)));
    assert(kids_items(s) =~= x.1.all_items());
}

/// Splits the items of a child sequence around one position.
pub proof fn lemma_kids_items_decompose<T>(cs: Seq<(Seq<char>, NodeModel<T>)>, i: int)
    requires
        0 <= i < cs.len(),
    ensures
        kids_items(cs) == kids_items(cs.subrange(0, i)) + cs[i].1.all_items() + kids_items(
            cs.subrange(i + 1, cs.len() as int),
        ),
{
    let pre = cs.subrange(0, i);
    let mid = seq![cs[i]];
    let post = cs.subrange(i + 1, cs.len() as int);
    assert(cs =~= pre + mid + post);
    lemma_kids_items_concat(pre + mid, post);
    lemma_kids_items_concat(pre, mid);
    lemma_kids_items_single(cs[i]);
    assert(kids_items(cs) == kids_items(pre + mid + post));
}

/// Accumulation: a successful insert appends the value to exactly the
/// values fetched at that path, creating the node if it was absent.
pub proof fn lemma_insert_accumulates<T>(m: NodeModel<T>, d: Seq<char>, p: Seq<char>, v: T)
    requires
        insert_ok(d, p),
    ensures
        m.insert_at(d, p, v).fetch_at(d, p) == m.fetch_at(d, p).push(v),
    decreases p.len(),
{
    let q = strip_lead(d, p);
    if q.len() == 0 {
    } else {
        lemma_tail_shorter(d, q);
        let h = head_of(d, q);
        let t = tail_of(d, q);
        lemma_find_key_props(m.children, h);
        match find_key(m.children, h) {
            Some(i) => {
                let child = m.children[i].1;
                let cs2 = m.children.update(i, (h, child.insert_at(d, t, v)));
                lemma_insert_accumulates(child, d, t, v);
                assert forall|j: int| 0 <= j < i implies (#[trigger] cs2[j].0) != h by {
                    assert(cs2[j] == m.children[j]);
                }
                lemma_find_key_at(cs2, h, i);
            },
            None => {
                let nc = NodeModel::<T>::new_child(h);
                let cs2 = m.children.push((h, nc.insert_at(d, t, v)));
                lemma_insert_accumulates(nc, d, t, v);
                assert forall|j: int| 0 <= j < m.children.len() implies (#[trigger] cs2[j].0)
                    != h by {
                    assert(cs2[j] == m.children[j]);
                }
                lemma_find_key_at(cs2, h, m.children.len() as int);
                // Before the insert nothing was fetched along this route.
                let q2 = strip_lead(d, t);
                if q2.len() == 0 {
                } else {
                    let h2 = head_of(d, q2);
                    if h2.len() == 0 {
                    } else {
                        assert(find_key(nc.children, h2) is None);
                    }
                }
                assert(m.fetch_at(d, p) =~= Seq::<T>::empty());
                assert(nc.fetch_at(d, t) =~= Seq::<T>::empty());
            },
        }
    }
}

/// Replace overwrites: a successful replace makes exactly the given
/// sequence the values fetched at that path, discarding prior values.
pub proof fn lemma_replace_overwrites<T>(m: NodeModel<T>, d: Seq<char>, p: Seq<char>, vs: Seq<T>)
    requires
        insert_ok(d, p),
    ensures
        m.replace_at(d, p, vs).fetch_at(d, p) == vs,
    decreases p.len(),
{
    let q = strip_lead(d, p);
    if q.len() == 0 {
    } else {
        lemma_tail_shorter(d, q);
        let h = head_of(d, q);
        let t = tail_of(d, q);
        lemma_find_key_props(m.children, h);
        match find_key(m.children, h) {
            Some(i) => {
                let child = m.children[i].1;
                let cs2 = m.children.update(i, (h, child.replace_at(d, t, vs)));
                lemma_replace_overwrites(child, d, t, vs);
                assert forall|j: int| 0 <= j < i implies (#[trigger] cs2[j].0) != h by {
                    assert(cs2[j] == m.children[j]);
                }
                lemma_find_key_at(cs2, h, i);
            },
            None => {
                let nc = NodeModel::<T>::new_child(h);
                let cs2 = m.children.push((h, nc.replace_at(d, t, vs)));
                lemma_replace_overwrites(nc, d, t, vs);
                assert forall|j: int| 0 <= j < m.children.len() implies (#[trigger] cs2[j].0)
                    != h by {
                    assert(cs2[j] == m.children[j]);
                }
                lemma_find_key_at(cs2, h, m.children.len() as int);
            },
        }
    }
}


/// Leading-delimiter idempotence: a path and the same path with one more
/// leading delimiter address the same node, as long as the path itself
/// does not already begin with the delimiter (the walk strips only a
/// single leading occurrence).
pub proof fn lemma_leading_delim_same_node<T>(m: NodeModel<T>, d: Seq<char>, p: Seq<char>, v: T)
    requires
        d.len() == 0 || !begins_with(p, d),
    ensures
        m.insert_at(d, d + p, v) == m.insert_at(d, p, v),
        insert_ok(d, d + p) == insert_ok(d, p),
        m.node_at(d, d + p) == m.node_at(d, p),
        m.fetch_at(d, d + p) == m.fetch_at(d, p),
{
    if d.len() == 0 {
        assert(d + p =~= p);
    } else {
        assert((d + p).subrange(0, d.len() as int) =~= d);
        assert(begins_with(d + p, d));
        assert(strip_lead(d, d + p) =~= p);
        assert(strip_lead(d, p) == p);
    }
}

/// Subtree delete: after a successful remove, the address that was
/// removed no longer resolves to any node.
pub proof fn lemma_remove_detaches<T>(m: NodeModel<T>, d: Seq<char>, p: Seq<char>)
    requires
        m.wf(),
        m.remove_at(d, p).1,
    ensures
        m.remove_at(d, p).0.node_at(d, p) is None,
    decreases p.len(),
{
    let q = strip_lead(d, p);
    lemma_tail_shorter(d, q);
    let h = head_of(d, q);
    let t = tail_of(d, q);
    lemma_find_key_props(m.children, h);
    lemma_kids_wf_index(m.children);
    match find_key(m.children, h) {
        Some(i) => {
            if t.len() == 0 {
                let cs2 = m.children.remove(i);
                assert forall|j: int| 0 <= j < cs2.len() implies (#[trigger] cs2[j].0) != h by {
                    if j < i {
                        assert(cs2[j] == m.children[j]);
                    } else {
                        assert(cs2[j] == m.children[j + 1]);
                    }
                }
                lemma_find_key_none(cs2, h);
            } else {
                let child = m.children[i].1;
                lemma_remove_detaches(child, d, t);
                let cs2 = m.children.update(i, (h, child.remove_at(d, t).0));
                assert forall|j: int| 0 <= j < i implies (#[trigger] cs2[j].0) != h by {
                    assert(cs2[j] == m.children[j]);
                }
                lemma_find_key_at(cs2, h, i);
            }
        },
        None => {},
    }
}

/// Items cardinality under insert: a successful insert grows the total
/// item count by one; a failed insert leaves it unchanged.
pub proof fn lemma_insert_items_count<T>(m: NodeModel<T>, d: Seq<char>, p: Seq<char>, v: T)
    ensures
        m.insert_at(d, p, v).all_items().len() == m.all_items().len() + (if insert_ok(d, p) {
            1int
        } else {
            0int
        }),
    decreases p.len(),
{
    let q = strip_lead(d, p);
    if q.len() == 0 {
        assert(m.insert_at(d, p, v).all_items() =~= m.values.push(v) + kids_items(m.children));
    } else {
        lemma_tail_shorter(d, q);
        let h = head_of(d, q);
        let t = tail_of(d, q);
        if h.len() == 0 {
        } else {
            lemma_find_key_props(m.children, h);
            match find_key(m.children, h) {
                Some(i) => {
                    let child = m.children[i].1;
                    lemma_insert_items_count(child, d, t, v);
                    let cs2 = m.children.update(i, (h, child.insert_at(d, t, v)));
                    lemma_kids_items_decompose(m.children, i);
                    lemma_kids_items_decompose(cs2, i);
                    assert(cs2.subrange(0, i) =~= m.children.subrange(0, i));
                    assert(cs2.subrange(i + 1, cs2.len() as int) =~= m.children.subrange(
                        i + 1,
                        m.children.len() as int,
                    ));
                },
                None => {
                    let nc = NodeModel::<T>::new_child(h);
                    lemma_insert_items_count(nc, d, t, v);
                    assert(nc.all_items() =~= Seq::<T>::empty());
                    let x = (h, nc.insert_at(d, t, v));
                    let cs2 = m.children.push(x);
                    assert(cs2 =~= m.children + seq![x]);
                    lemma_kids_items_concat(m.children, seq![x]);
                    lemma_kids_items_single(x);
                },
            }
        }
    }
}

/// Items cardinality under remove: a successful remove deletes exactly
/// the items of the whole subtree that was addressed, no more and no
/// fewer.
pub proof fn lemma_remove_items_count<T>(m: NodeModel<T>, d: Seq<char>, p: Seq<char>)
    requires
        m.wf(),
        m.remove_at(d, p).1,
    ensures
        m.node_at(d, p) matches Some(n) && m.remove_at(d, p).0.all_items().len()
            + n.all_items().len() == m.all_items().len(),
    decreases p.len(),
{
    let q = strip_lead(d, p);
    lemma_tail_shorter(d, q);
    let h = head_of(d, q);
    let t = tail_of(d, q);
    lemma_find_key_props(m.children, h);
    lemma_kids_wf_index(m.children);
    match find_key(m.children, h) {
        Some(i) => {
            let child = m.children[i].1;
            if t.len() == 0 {
                let cs2 = m.children.remove(i);
                lemma_kids_items_decompose(m.children, i);
                assert(cs2 =~= m.children.subrange(0, i) + m.children.subrange(
                    i + 1,
                    m.children.len() as int,
                ));
                lemma_kids_items_concat(
                    m.children.subrange(0, i),
                    m.children.subrange(i + 1, m.children.len() as int),
                );
                // The addressed node is exactly the detached child.
                assert(strip_lead(d, t).len() == 0);
                assert(child.node_at(d, t) == Some(child));
            } else {
                lemma_remove_items_count(child, d, t);
                let cs2 = m.children.update(i, (h, child.remove_at(d, t).0));
                lemma_kids_items_decompose(m.children, i);
                lemma_kids_items_decompose(cs2, i);
                assert(cs2.subrange(0, i) =~= m.children.subrange(0, i));
                assert(cs2.subrange(i + 1, cs2.len() as int) =~= m.children.subrange(
                    i + 1,
                    m.children.len() as int,
                ));
            }
        },
        None => {},
    }
}

} // verus!
