//! Red-black tree of `(key, id)` entries.
//!
//! The tree keeps its entries in ascending order of key, and entries with
//! equal keys in ascending order of id, so the order of the tree is a strict
//! total order over its entries. The `id` of an entry names the entity that
//! the entry stands for; ids in one tree are distinct.
use vstd::prelude::*;

verus! {

/// One entry of the tree: the ordering key and the id of its entity.
pub type Entry = (u64, usize);

/// Node color of the red-black tree.
#[derive(Clone, Copy, Debug, PartialEq, Eq)]
pub enum Color {
    Red,
    Black,
}

/// Child link of a node.
pub type Link = Option<Box<RbNode>>;

/// A node of the red-black tree: one entry and the links below it.
pub struct RbNode {
    /// The ordering key of the entry.
    pub key: u64,
    /// The id of the entity the entry stands for.
    pub id: usize,
    /// The node's color.
    pub color: Color,
    /// The subtree of smaller entries.
    pub left: Link,
    /// The subtree of larger entries.
    pub right: Link,
}

// ---------------------------------------------------------------------------
// Mathematical model
// ---------------------------------------------------------------------------

/// The entries of a subtree, in order.
pub closed spec fn seq_of(t: Link) -> Seq<Entry>
    decreases t,
{
    match t {
        None => Seq::empty(),
        Some(n) => seq_of(n.left) + seq![(n.key, n.id)] + seq_of(n.right),
    }
}

/// The order of the tree: by key, and by id among equal keys.
pub open spec fn entry_lt(a: Entry, b: Entry) -> bool {
    a.0 < b.0 || (a.0 == b.0 && a.1 < b.1)
}

/// The entries are in strictly ascending order.
pub open spec fn sorted(s: Seq<Entry>) -> bool {
    forall|i: int, j: int| 0 <= i < j < s.len() ==> entry_lt(#[trigger] s[i], #[trigger] s[j])
}

/// No two entries carry the same id.
pub open spec fn ids_distinct(s: Seq<Entry>) -> bool {
    forall|i: int, j: int|
        0 <= i < s.len() && 0 <= j < s.len() && i != j ==> #[trigger] s[i].1 != #[trigger] s[j].1
}

/// Some entry carries the id.
pub open spec fn has_id(s: Seq<Entry>, id: usize) -> bool {
    exists|i: int| 0 <= i < s.len() && #[trigger] s[i].1 == id
}

/// The position at which the entry `e` goes: after every entry that comes
/// before it in the order.
pub open spec fn upper_pos(s: Seq<Entry>, e: Entry) -> int
    decreases s.len(),
{
    if s.len() == 0 {
        0
    } else if entry_lt(e, s[0]) {
        0
    } else {
        1 + upper_pos(s.drop_first(), e)
    }
}

/// The sequence with `e` inserted at its place in the order.
pub open spec fn sorted_insert(s: Seq<Entry>, e: Entry) -> Seq<Entry> {
    s.insert(upper_pos(s, e), e)
}

/// Saturating subtraction, as `u64::saturating_sub` computes it.
pub open spec fn sat_sub(a: u64, b: u64) -> u64 {
    if a >= b {
        (a - b) as u64
    } else {
        0
    }
}

/// Each key lowered by `d`, saturating at zero; ids and positions unchanged.
pub open spec fn lower_keys(s: Seq<Entry>, d: u64) -> Seq<Entry> {
    Seq::new(s.len(), |i: int| (sat_sub(s[i].0, d), s[i].1))
}

/// The number of leading entries whose key is at most `d`: those whose key
/// lowering by `d` takes to zero.
pub open spec fn expired_count(s: Seq<Entry>, d: u64) -> nat
    decreases s.len(),
{
    if s.len() > 0 && s[0].0 <= d {
        1 + expired_count(s.drop_first(), d)
    } else {
        0
    }
}

/// The entries `items` inserted one after the other, each at its place.
pub open spec fn insert_all(base: Seq<Entry>, items: Seq<Entry>) -> Seq<Entry>
    decreases items.len(),
{
    if items.len() == 0 {
        base
    } else {
        insert_all(sorted_insert(base, items[0]), items.drop_first())
    }
}

/// The sequence with every key lowered by `d`, back in order: the entries
/// whose key reaches zero are put in again at their places among the others.
pub open spec fn advanced(s: Seq<Entry>, d: u64) -> Seq<Entry> {
    let p = expired_count(s, d) as int;
    insert_all(lower_keys(s.skip(p), d), lower_keys(s.take(p), d))
}

/// The position of the entry with `id`, for a sequence that holds it.
pub open spec fn pos_of(s: Seq<Entry>, id: usize) -> int {
    choose|i: int| 0 <= i < s.len() && s[i].1 == id
}

// ---------------------------------------------------------------------------
// Lemmas on the model
// ---------------------------------------------------------------------------

/// A sequence built from a left part, a middle entry and a right part is
/// sorted exactly when both parts are and the middle entry separates them.
pub proof fn lemma_sorted_concat(a: Seq<Entry>, x: Entry, b: Seq<Entry>)
    ensures
        sorted(a + seq![x] + b) <==> (sorted(a) && sorted(b) && (forall|i: int|
            0 <= i < a.len() ==> entry_lt(#[trigger] a[i], x)) && (forall|j: int|
            0 <= j < b.len() ==> entry_lt(x, #[trigger] b[j]))),
{
    let s = a + seq![x] + b;
    assert forall|i: int| 0 <= i < a.len() implies s[i] == a[i] by {}
    assert(s[a.len() as int] == x);
    assert forall|j: int| 0 <= j < b.len() implies s[a.len() + 1 + j] == b[j] by {}
    if sorted(s) {
        assert forall|i: int, j: int| 0 <= i < j < a.len() implies entry_lt(
            #[trigger] a[i],
            #[trigger] a[j],
        ) by {
            assert(s[i] == a[i] && s[j] == a[j]);
        }
        assert forall|i: int, j: int| 0 <= i < j < b.len() implies entry_lt(
            #[trigger] b[i],
            #[trigger] b[j],
        ) by {
            assert(s[a.len() + 1 + i] == b[i] && s[a.len() + 1 + j] == b[j]);
        }
        assert forall|i: int| 0 <= i < a.len() implies entry_lt(#[trigger] a[i], x) by {
            assert(s[i] == a[i] && s[a.len() as int] == x);
        }
        assert forall|j: int| 0 <= j < b.len() implies entry_lt(x, #[trigger] b[j]) by {
            assert(s[a.len() + 1 + j] == b[j] && s[a.len() as int] == x);
        }
    }
    if sorted(a) && sorted(b) && (forall|i: int| 0 <= i < a.len() ==> entry_lt(#[trigger] a[i], x))
        && (forall|j: int| 0 <= j < b.len() ==> entry_lt(x, #[trigger] b[j])) {
        assert forall|i: int, j: int| 0 <= i < j < s.len() implies entry_lt(
            #[trigger] s[i],
            #[trigger] s[j],
        ) by {
            if j < a.len() {
                assert(s[i] == a[i] && s[j] == a[j]);
            } else if j == a.len() {
                assert(s[i] == a[i]);
            } else {
                assert(s[j] == b[j - a.len() - 1]);
                if i < a.len() {
                    assert(s[i] == a[i]);
                    assert(entry_lt(a[i], x));
                    assert(entry_lt(x, b[j - a.len() - 1]));
                } else if i == a.len() {
                } else {
                    assert(s[i] == b[i - a.len() - 1]);
                }
            }
        }
    }
}

/// The middle entry of a sequence is in it, and so is every entry of either
/// part, and nothing else.
pub proof fn lemma_contains_concat(a: Seq<Entry>, x: Entry, b: Seq<Entry>, e: Entry)
    ensures
        (a + seq![x] + b).contains(e) <==> (a.contains(e) || x == e || b.contains(e)),
{
    let s = a + seq![x] + b;
    if s.contains(e) {
        let k = choose|k: int| 0 <= k < s.len() && s[k] == e;
        if k < a.len() {
            assert(a[k] == e);
        } else if k > a.len() {
            assert(b[k - a.len() - 1] == e);
        }
    }
    if a.contains(e) {
        let k = choose|k: int| 0 <= k < a.len() && a[k] == e;
        assert(s[k] == e);
    }
    if x == e {
        assert(s[a.len() as int] == e);
    }
    if b.contains(e) {
        let k = choose|k: int| 0 <= k < b.len() && b[k] == e;
        assert(s[a.len() + 1 + k] == e);
    }
}

/// Where the insertion position lies in a sorted sequence.
pub proof fn lemma_upper_pos(s: Seq<Entry>, e: Entry)
    requires
        sorted(s),
    ensures
        0 <= upper_pos(s, e) <= s.len(),
        forall|i: int| 0 <= i < upper_pos(s, e) ==> !entry_lt(e, #[trigger] s[i]),
        forall|i: int| upper_pos(s, e) <= i < s.len() ==> entry_lt(e, #[trigger] s[i]),
    decreases s.len(),
{
    if s.len() > 0 && !entry_lt(e, s[0]) {
        let t = s.drop_first();
        assert forall|i: int, j: int| 0 <= i < j < t.len() implies entry_lt(
            #[trigger] t[i],
            #[trigger] t[j],
        ) by {
            assert(t[i] == s[i + 1] && t[j] == s[j + 1]);
        }
        lemma_upper_pos(t, e);
        assert forall|i: int| 0 <= i < upper_pos(s, e) implies !entry_lt(e, #[trigger] s[i]) by {
            if i > 0 {
                assert(s[i] == t[i - 1]);
            }
        }
        assert forall|i: int| upper_pos(s, e) <= i < s.len() implies entry_lt(e, #[trigger] s[i]) by {
            assert(s[i] == t[i - 1]);
        }
    } else if s.len() > 0 {
        assert forall|i: int| 0 <= i < s.len() implies entry_lt(e, #[trigger] s[i]) by {
            if i > 0 {
                assert(entry_lt(s[0], s[i]));
            }
        }
    }
}

/// Inserting a new entry into a sorted sequence keeps it sorted.
pub proof fn lemma_sorted_insert_sorted(s: Seq<Entry>, e: Entry)
    requires
        sorted(s),
        !s.contains(e),
    ensures
        sorted(sorted_insert(s, e)),
        sorted_insert(s, e).len() == s.len() + 1,
{
    lemma_upper_pos(s, e);
    let p = upper_pos(s, e);
    let r = sorted_insert(s, e);
    assert forall|i: int| 0 <= i < p implies entry_lt(#[trigger] s[i], e) by {
        if s[i] == e {
            assert(s.contains(e));
        }
    }
    assert forall|i: int, j: int| 0 <= i < j < r.len() implies entry_lt(
        #[trigger] r[i],
        #[trigger] r[j],
    ) by {
        if i < p {
            assert(r[i] == s[i]);
            if j < p {
                assert(r[j] == s[j]);
            } else if j > p {
                assert(r[j] == s[j - 1]);
                assert(entry_lt(e, s[j - 1]));
            }
        } else if i == p {
            assert(r[j] == s[j - 1]);
        } else {
            assert(r[i] == s[i - 1] && r[j] == s[j - 1]);
        }
    }
}

/// Inserting an entry with a fresh id keeps the ids distinct.
pub proof fn lemma_insert_ids_distinct(s: Seq<Entry>, p: int, e: Entry)
    requires
        ids_distinct(s),
        !has_id(s, e.1),
        0 <= p <= s.len(),
    ensures
        ids_distinct(s.insert(p, e)),
        forall|id: usize| has_id(s.insert(p, e), id) <==> (has_id(s, id) || id == e.1),
{
    let r = s.insert(p, e);
    assert forall|i: int, j: int|
        0 <= i < r.len() && 0 <= j < r.len() && i != j implies #[trigger] r[i].1
        != #[trigger] r[j].1 by {
        let si = if i < p { i } else { i - 1 };
        let sj = if j < p { j } else { j - 1 };
        if i == p {
            assert(r[j] == s[sj]);
        } else if j == p {
            assert(r[i] == s[si]);
        } else {
            assert(r[i] == s[si] && r[j] == s[sj]);
        }
    }
    assert forall|id: usize| has_id(r, id) <==> (has_id(s, id) || id == e.1) by {
        if has_id(r, id) {
            let i = choose|i: int| 0 <= i < r.len() && r[i].1 == id;
            if i < p {
                assert(r[i] == s[i]);
            } else if i > p {
                assert(r[i] == s[i - 1]);
            }
        }
        if has_id(s, id) {
            let i = choose|i: int| 0 <= i < s.len() && s[i].1 == id;
            if i < p {
                assert(r[i] == s[i]);
            } else {
                assert(r[i + 1] == s[i]);
            }
        }
        if id == e.1 {
            assert(r[p] == e);
        }
    }
}

/// Locating the insertion point in a left part followed by later entries.
pub proof fn lemma_upper_pos_prefix(a: Seq<Entry>, m: Seq<Entry>, e: Entry)
    requires
        m.len() > 0,
        entry_lt(e, m[0]),
    ensures
        upper_pos(a + m, e) == upper_pos(a, e),
    decreases a.len(),
{
    if a.len() > 0 && !entry_lt(e, a[0]) {
        assert((a + m).drop_first() =~= a.drop_first() + m);
        lemma_upper_pos_prefix(a.drop_first(), m, e);
    } else if a.len() == 0 {
        assert(a + m =~= m);
    }
}

/// Locating the insertion point past a left part of earlier entries.
pub proof fn lemma_upper_pos_suffix(a: Seq<Entry>, m: Seq<Entry>, e: Entry)
    requires
        forall|i: int| 0 <= i < a.len() ==> !entry_lt(e, #[trigger] a[i]),
    ensures
        upper_pos(a + m, e) == a.len() + upper_pos(m, e),
    decreases a.len(),
{
    if a.len() > 0 {
        assert((a + m).drop_first() =~= a.drop_first() + m);
        assert forall|i: int| 0 <= i < a.drop_first().len() implies !entry_lt(
            e,
            #[trigger] a.drop_first()[i],
        ) by {
            assert(a.drop_first()[i] == a[i + 1]);
        }
        lemma_upper_pos_suffix(a.drop_first(), m, e);
        assert((a + m)[0] == a[0]);
    } else {
        assert(a + m =~= m);
    }
}

/// Inserting an entry that comes before the middle entry goes into the left
/// part.
pub proof fn lemma_sorted_insert_left(l: Seq<Entry>, x: Entry, r: Seq<Entry>, e: Entry)
    requires
        sorted(l + seq![x] + r),
        entry_lt(e, x),
    ensures
        sorted_insert(l + seq![x] + r, e) == sorted_insert(l, e) + seq![x] + r,
{
    lemma_sorted_concat(l, x, r);
    assert(l + seq![x] + r =~= l + (seq![x] + r));
    lemma_upper_pos_prefix(l, seq![x] + r, e);
    lemma_upper_pos(l, e);
    assert(sorted_insert(l + seq![x] + r, e) =~= sorted_insert(l, e) + seq![x] + r);
}

/// Inserting an entry that comes after the middle entry goes into the right
/// part.
pub proof fn lemma_sorted_insert_right(l: Seq<Entry>, x: Entry, r: Seq<Entry>, e: Entry)
    requires
        sorted(l + seq![x] + r),
        entry_lt(x, e),
    ensures
        sorted_insert(l + seq![x] + r, e) == l + seq![x] + sorted_insert(r, e),
{
    lemma_sorted_concat(l, x, r);
    let a = l + seq![x];
    assert forall|i: int| 0 <= i < a.len() implies !entry_lt(e, #[trigger] a[i]) by {
        if i < l.len() {
            assert(a[i] == l[i]);
            assert(entry_lt(l[i], x));
        }
    }
    lemma_upper_pos_suffix(a, r, e);
    lemma_upper_pos(r, e);
    assert(sorted_insert(l + seq![x] + r, e) =~= l + seq![x] + sorted_insert(r, e));
}

// ---------------------------------------------------------------------------
// Nodes
// ---------------------------------------------------------------------------

/// A link holds a red node.
pub open spec fn red(t: Link) -> bool {
    t is Some && t->0.color == Color::Red
}

impl RbNode {
    /// The entries of the subtree rooted at this node, in order.
    pub closed spec fn entries(self) -> Seq<Entry> {
        seq_of(self.left) + seq![(self.key, self.id)] + seq_of(self.right)
    }

    /// The node's own entry.
    pub closed spec fn entry(self) -> Entry {
        (self.key, self.id)
    }

    /// The node's color.
    pub closed spec fn spec_color(self) -> Color {
        self.color
    }

    /// The node has a child.
    pub closed spec fn spec_is_linked(self) -> bool {
        self.left is Some || self.right is Some
    }

    /// A detached red node holding one entry.
    pub fn new(key: u64, id: usize) -> (n: Self)
        ensures
            n.entries() == seq![(key, id)],
            n.entry() == (key, id),
            n.spec_color() == Color::Red,
            !n.spec_is_linked(),
    {
        let n = RbNode { key, id, color: Color::Red, left: None, right: None };
        assert(n.entries() =~= seq![(key, id)]);
        n
    }

    /// Drop the node's children and make it red again, ready to be linked anew.
    pub fn reset_links(&mut self)
        ensures
            final(self).entries() == seq![old(self).entry()],
            final(self).entry() == old(self).entry(),
            final(self).spec_color() == Color::Red,
            !final(self).spec_is_linked(),
    {
        self.left = None;
        self.right = None;
        self.color = Color::Red;
        assert(self.entries() =~= seq![self.entry()]);
    }

    /// The node has a child.
    pub fn is_linked(&self) -> (r: bool)
        ensures
            r == self.spec_is_linked(),
    {
        self.left.is_some() || self.right.is_some()
    }
}

proof fn lemma_seq_of_some(n: Box<RbNode>)
    ensures
        seq_of(Some(n)) == n.entries(),
{
}

fn is_red(t: &Link) -> (r: bool)
    ensures
        r == red(*t),
{
    match t {
        Some(n) => match n.color {
            Color::Red => true,
            Color::Black => false,
        },
        None => false,
    }
}

/// The linked node is red and has a red left child.
fn red_left_of(t: &Link) -> (r: bool)
    ensures
        r == (red(*t) && red(t->0.left)),
{
    match t {
        Some(n) => is_red(t) && is_red(&n.left),
        None => false,
    }
}

/// The linked node is red and has a red right child.
fn red_right_of(t: &Link) -> (r: bool)
    ensures
        r == (red(*t) && red(t->0.right)),
{
    match t {
        Some(n) => is_red(t) && is_red(&n.right),
        None => false,
    }
}

fn set_color(t: &mut Link, c: Color)
    ensures
        *final(t) == painted(*old(t), c),
        seq_of(*final(t)) == seq_of(*old(t)),
        (*final(t)) is Some <==> (*old(t)) is Some,
        (*final(t)) is Some ==> final(t)->0.color == c && final(t)->0.left == old(t)->0.left
            && final(t)->0.right == old(t)->0.right && final(t)->0.entry() == old(t)->0.entry(),
{
    if let Some(mut n) = t.take() {
        n.color = c;
        *t = Some(n);
    }
}

/// A left rotation can be made at the node: it has a right child.
pub open spec fn can_rotate_left(x: RbNode) -> bool {
    x.right is Some
}

/// A right rotation can be made at the node: it has a left child.
pub open spec fn can_rotate_right(x: RbNode) -> bool {
    x.left is Some
}

/// The subtree after a left rotation at `x`: the right child takes the place
/// of `x`, and `x` becomes its left child, taking over the child's former
/// left subtree as its right subtree.
pub open spec fn rotated_left(x: RbNode) -> RbNode {
    let y = x.right->0;
    RbNode {
        key: y.key,
        id: y.id,
        color: y.color,
        left: Some(Box::new(RbNode { key: x.key, id: x.id, color: x.color, left: x.left, right: y.left })),
        right: y.right,
    }
}

/// The subtree after a right rotation at `y`: the left child takes the place
/// of `y`, and `y` becomes its right child, taking over the child's former
/// right subtree as its left subtree.
pub open spec fn rotated_right(y: RbNode) -> RbNode {
    let x = y.left->0;
    RbNode {
        key: x.key,
        id: x.id,
        color: x.color,
        left: x.left,
        right: Some(Box::new(RbNode { key: y.key, id: y.id, color: y.color, left: x.right, right: y.right })),
    }
}

/// Rotations keep the entries of a subtree in their order, and each one is
/// undone by the rotation the other way.
pub proof fn lemma_rotations(x: RbNode)
    ensures
        can_rotate_left(x) ==> rotated_left(x).entries() == x.entries(),
        can_rotate_left(x) ==> can_rotate_right(rotated_left(x)) && rotated_right(rotated_left(x)) == x,
        can_rotate_right(x) ==> rotated_right(x).entries() == x.entries(),
        can_rotate_right(x) ==> can_rotate_left(rotated_right(x)) && rotated_left(rotated_right(x)) == x,
{
    if can_rotate_left(x) {
        let y = x.right->0;
        lemma_seq_of_some(y);
        let l = RbNode { key: x.key, id: x.id, color: x.color, left: x.left, right: y.left };
        lemma_seq_of_some(Box::new(l));
        assert(rotated_left(x).entries() =~= x.entries());
    }
    if can_rotate_right(x) {
        let y = x.left->0;
        lemma_seq_of_some(y);
        let r = RbNode { key: x.key, id: x.id, color: x.color, left: y.right, right: x.right };
        lemma_seq_of_some(Box::new(r));
        assert(rotated_right(x).entries() =~= x.entries());
    }
}

// ---------------------------------------------------------------------------
// The shape of the tree: what each repair step does to the nodes
// ---------------------------------------------------------------------------

/// The link with its node painted `c`.
pub open spec fn painted(t: Link, c: Color) -> Link {
    match t {
        None => None,
        Some(n) => Some(Box::new(RbNode { key: n.key, id: n.id, color: c, left: n.left, right: n.right })),
    }
}

/// The link holds a red node with a red child.
pub open spec fn red_pair(t: Link) -> bool {
    red(t) && (red(t->0.left) || red(t->0.right))
}

/// The node `g` after the insertion repair for its left side: when the left
/// child is red with a red child, a red right child makes it a recoloring
/// (`g` red, both children black), otherwise one or two rotations bring
/// the middle entry of the three up as a black node.
pub open spec fn fixed_ins_left(g: RbNode) -> RbNode {
    if red_pair(g.left) {
        if red(g.right) {
            RbNode {
                key: g.key,
                id: g.id,
                color: Color::Red,
                left: painted(g.left, Color::Black),
                right: painted(g.right, Color::Black),
            }
        } else {
            let l = if red(g.left->0.right) {
                Some(Box::new(rotated_left(*g.left->0)))
            } else {
                g.left
            };
            rotated_right(
                RbNode { key: g.key, id: g.id, color: Color::Red, left: painted(l, Color::Black), right: g.right },
            )
        }
    } else {
        g
    }
}

/// Mirror of `fixed_ins_left` for the right side of `g`.
pub open spec fn fixed_ins_right(g: RbNode) -> RbNode {
    if red_pair(g.right) {
        if red(g.left) {
            RbNode {
                key: g.key,
                id: g.id,
                color: Color::Red,
                left: painted(g.left, Color::Black),
                right: painted(g.right, Color::Black),
            }
        } else {
            let r = if red(g.right->0.left) {
                Some(Box::new(rotated_right(*g.right->0)))
            } else {
                g.right
            };
            rotated_left(
                RbNode { key: g.key, id: g.id, color: Color::Red, left: g.left, right: painted(r, Color::Black) },
            )
        }
    } else {
        g
    }
}

/// The subtree below `t` after the entry `(key, id)` went in: a new red
/// node at the bottom, and the insertion repair on the way back up.
pub open spec fn inserted(t: Link, key: u64, id: usize) -> RbNode
    decreases t,
{
    match t {
        None => RbNode { key, id, color: Color::Red, left: None, right: None },
        Some(n) => if entry_lt((key, id), (n.key, n.id)) {
            fixed_ins_left(
                RbNode {
                    key: n.key,
                    id: n.id,
                    color: n.color,
                    left: Some(Box::new(inserted(n.left, key, id))),
                    right: n.right,
                },
            )
        } else {
            fixed_ins_right(
                RbNode {
                    key: n.key,
                    id: n.id,
                    color: n.color,
                    left: n.left,
                    right: Some(Box::new(inserted(n.right, key, id))),
                },
            )
        },
    }
}

/// The tree rooted at `t` after an insertion: the repaired tree with a
/// black root.
pub open spec fn tree_inserted(t: Link, key: u64, id: usize) -> Link {
    painted(Some(Box::new(inserted(t, key, id))), Color::Black)
}

/// The node `n` after the deletion repair for a left side one black level
/// short, when its right child is black: a sibling with two black children
/// turns red (and the shortage moves up unless `n` was red); otherwise one
/// or two rotations bring a red nephew up and end the shortage.
pub open spec fn fixed_del_left_black(n: RbNode) -> (RbNode, bool) {
    if n.right is None || (!red(n.right->0.left) && !red(n.right->0.right)) {
        let m = RbNode {
            key: n.key,
            id: n.id,
            color: Color::Black,
            left: n.left,
            right: painted(n.right, Color::Red),
        };
        (m, n.color == Color::Black)
    } else {
        let s0 = *n.right->0;
        let s1 = if !red(s0.right) {
            rotated_right(
                RbNode {
                    key: s0.key,
                    id: s0.id,
                    color: Color::Red,
                    left: painted(s0.left, Color::Black),
                    right: s0.right,
                },
            )
        } else {
            s0
        };
        let s2 = RbNode {
            key: s1.key,
            id: s1.id,
            color: n.color,
            left: s1.left,
            right: painted(s1.right, Color::Black),
        };
        (
            rotated_left(
                RbNode { key: n.key, id: n.id, color: Color::Black, left: n.left, right: Some(Box::new(s2)) },
            ),
            false,
        )
    }
}

/// Mirror of `fixed_del_left_black` for a short right side.
pub open spec fn fixed_del_right_black(n: RbNode) -> (RbNode, bool) {
    if n.left is None || (!red(n.left->0.right) && !red(n.left->0.left)) {
        let m = RbNode {
            key: n.key,
            id: n.id,
            color: Color::Black,
            left: painted(n.left, Color::Red),
            right: n.right,
        };
        (m, n.color == Color::Black)
    } else {
        let s0 = *n.left->0;
        let s1 = if !red(s0.left) {
            rotated_left(
                RbNode {
                    key: s0.key,
                    id: s0.id,
                    color: Color::Red,
                    left: s0.left,
                    right: painted(s0.right, Color::Black),
                },
            )
        } else {
            s0
        };
        let s2 = RbNode {
            key: s1.key,
            id: s1.id,
            color: n.color,
            left: painted(s1.left, Color::Black),
            right: s1.right,
        };
        (
            rotated_right(
                RbNode { key: n.key, id: n.id, color: Color::Black, left: Some(Box::new(s2)), right: n.right },
            ),
            false,
        )
    }
}

/// The node `n` after the deletion repair for a left side one black level
/// short: a red sibling is first rotated up, so that the repair below it
/// meets a black sibling.
pub open spec fn fixed_del_left(n: RbNode) -> (RbNode, bool) {
    if red(n.right) {
        let top = rotated_left(
            RbNode { key: n.key, id: n.id, color: Color::Red, left: n.left, right: painted(n.right, Color::Black) },
        );
        let (inner, short) = fixed_del_left_black(*top.left->0);
        (RbNode { key: top.key, id: top.id, color: top.color, left: Some(Box::new(inner)), right: top.right }, short)
    } else {
        fixed_del_left_black(n)
    }
}

/// Mirror of `fixed_del_left` for a short right side.
pub open spec fn fixed_del_right(n: RbNode) -> (RbNode, bool) {
    if red(n.left) {
        let top = rotated_right(
            RbNode { key: n.key, id: n.id, color: Color::Red, left: painted(n.left, Color::Black), right: n.right },
        );
        let (inner, short) = fixed_del_right_black(*top.right->0);
        (RbNode { key: top.key, id: top.id, color: top.color, left: top.left, right: Some(Box::new(inner)) }, short)
    } else {
        fixed_del_right_black(n)
    }
}

/// What takes the place of a removed node of color `color` with the one
/// child `child`, and whether that place is one black level short.
pub open spec fn spliced(color: Color, child: Link) -> (Link, bool) {
    match color {
        Color::Red => (child, false),
        Color::Black => if red(child) {
            (painted(child, Color::Black), false)
        } else {
            (child, true)
        },
    }
}

/// The leftmost entry below `n`, the subtree left when it is removed, and
/// whether that subtree is one black level short.
pub open spec fn min_removed(n: RbNode) -> (Entry, Link, bool)
    decreases n,
{
    match n.left {
        None => {
            let (rest, short) = spliced(n.color, n.right);
            ((n.key, n.id), rest, short)
        },
        Some(l) => {
            let (e, nl, short) = min_removed(*l);
            let m = RbNode { key: n.key, id: n.id, color: n.color, left: nl, right: n.right };
            if short {
                let (m2, short2) = fixed_del_left(m);
                (e, Some(Box::new(m2)), short2)
            } else {
                (e, Some(Box::new(m)), false)
            }
        },
    }
}

/// The subtree left when the entry `(key, id)` is removed from below `n`,
/// and whether it is one black level short. A node with two children takes
/// over the leftmost entry of its right subtree.
pub open spec fn removed(n: RbNode, key: u64, id: usize) -> (Link, bool)
    decreases n,
{
    if (key, id) == (n.key, n.id) {
        if n.left is None {
            spliced(n.color, n.right)
        } else if n.right is None {
            spliced(n.color, n.left)
        } else {
            let (m, nr, short) = min_removed(*n.right->0);
            let n2 = RbNode { key: m.0, id: m.1, color: n.color, left: n.left, right: nr };
            if short {
                let (t, short2) = fixed_del_right(n2);
                (Some(Box::new(t)), short2)
            } else {
                (Some(Box::new(n2)), false)
            }
        }
    } else if entry_lt((key, id), (n.key, n.id)) {
        match n.left {
            None => (Some(Box::new(n)), false),
            Some(l) => {
                let (nl, short) = removed(*l, key, id);
                let n2 = RbNode { key: n.key, id: n.id, color: n.color, left: nl, right: n.right };
                if short {
                    let (t, short2) = fixed_del_left(n2);
                    (Some(Box::new(t)), short2)
                } else {
                    (Some(Box::new(n2)), false)
                }
            },
        }
    } else {
        match n.right {
            None => (Some(Box::new(n)), false),
            Some(r) => {
                let (nr, short) = removed(*r, key, id);
                let n2 = RbNode { key: n.key, id: n.id, color: n.color, left: n.left, right: nr };
                if short {
                    let (t, short2) = fixed_del_right(n2);
                    (Some(Box::new(t)), short2)
                } else {
                    (Some(Box::new(n2)), false)
                }
            },
        }
    }
}

/// The tree rooted at `t` after the entry `(key, id)` is removed, with its
/// root painted black.
pub open spec fn tree_removed(t: Link, key: u64, id: usize) -> Link {
    match t {
        None => None,
        Some(n) => painted(removed(*n, key, id).0, Color::Black),
    }
}

/// The tree rooted at `t` after its first entry is removed, with its root
/// painted black.
pub open spec fn tree_first_removed(t: Link) -> Link {
    match t {
        None => None,
        Some(n) => painted(min_removed(*n).1, Color::Black),
    }
}

/// Rotate left: the right child becomes the root of the subtree.
fn rotate_left(x: Box<RbNode>) -> (r: Box<RbNode>)
    requires
        x.right is Some,
    ensures
        *r == rotated_left(*x),
        r.entries() == x.entries(),
        r.key == x.right->0.key && r.id == x.right->0.id,
        r.color == x.right->0.color,
        r.right == x.right->0.right,
        r.left is Some,
        r.left->0.key == x.key && r.left->0.id == x.id,
        r.left->0.color == x.color,
        r.left->0.left == x.left,
        r.left->0.right == x.right->0.left,
{
    let ghost x0 = *x;
    let mut x = x;
    let mut y = x.right.take().unwrap();
    let ghost y0 = *y;
    x.right = y.left.take();
    y.left = Some(x);
    proof {
        lemma_seq_of_some(x);
        assert(seq_of(x0.right) == y0.entries());
        assert(y.entries() =~= x0.entries());
    }
    y
}

/// Rotate right: the left child becomes the root of the subtree.
fn rotate_right(y: Box<RbNode>) -> (r: Box<RbNode>)
    requires
        y.left is Some,
    ensures
        *r == rotated_right(*y),
        r.entries() == y.entries(),
        r.key == y.left->0.key && r.id == y.left->0.id,
        r.color == y.left->0.color,
        r.left == y.left->0.left,
        r.right is Some,
        r.right->0.key == y.key && r.right->0.id == y.id,
        r.right->0.color == y.color,
        r.right->0.right == y.right,
        r.right->0.left == y.left->0.right,
{
    let ghost y0 = *y;
    let mut y = y;
    let mut x = y.left.take().unwrap();
    let ghost x0 = *x;
    y.left = x.right.take();
    x.right = Some(y);
    proof {
        lemma_seq_of_some(y);
        assert(seq_of(y0.left) == x0.entries());
        assert(x.entries() =~= y0.entries());
    }
    x
}


/// The subtree is a red-black tree with `h` black nodes on every path from
/// its root down to a missing child, and no red node with a red child.
pub closed spec fn is_rb(t: Link, h: nat) -> bool
    decreases t,
{
    match t {
        None => h == 0,
        Some(n) => match n.color {
            Color::Red => !red(n.left) && !red(n.right) && is_rb(n.left, h) && is_rb(n.right, h),
            Color::Black => h >= 1 && is_rb(n.left, (h - 1) as nat) && is_rb(n.right, (h - 1) as nat),
        },
    }
}

/// A red node whose children are red-black trees of black height `h`, at
/// most one of them red: what insertion below a red node leaves behind.
spec fn infra(t: Link, h: nat) -> bool {
    &&& t is Some
    &&& t->0.color == Color::Red
    &&& is_rb(t->0.left, h)
    &&& is_rb(t->0.right, h)
    &&& !(red(t->0.left) && red(t->0.right))
}

/// Repair a red node with a red child on the left side of `g`, as the
/// insertion fix-up does at the grandparent: recolor when the uncle is red,
/// otherwise rotate the red pair up.
fn fix_insert_left(g: Box<RbNode>, Ghost(c): Ghost<nat>) -> (r: (Box<RbNode>, Ghost<nat>))
    requires
        (g.color == Color::Black && (is_rb(g.left, c) || infra(g.left, c)) && is_rb(g.right, c))
            || (g.color == Color::Red && is_rb(g.left, c) && is_rb(g.right, c) && !(red(g.left)
            && red(g.right))),
    ensures
        *r.0 == fixed_ins_left(*g),
        r.0.entries() == g.entries(),
        g.color == Color::Black ==> is_rb(Some(r.0), c + 1),
        g.color == Color::Red ==> infra(Some(r.0), c),
        r.1@ <= 2,
        r.1@ > 0 ==> g.color == Color::Black && r.0.color == Color::Black,
        !(red(g.left) && (red(g.left->0.left) || red(g.left->0.right))) ==> r.0 == g && r.1@ == 0,
{
    let ghost g0 = *g;
    let mut g = g;
    if red_left_of(&g.left) || red_right_of(&g.left) {
        if is_red(&g.right) {
            proof {
                assert(g0.color == Color::Black);
                assert(is_rb(g0.left->0.left, c) && is_rb(g0.left->0.right, c));
                assert(is_rb(g0.right->0.left, c) && is_rb(g0.right->0.right, c));
            }
            set_color(&mut g.left, Color::Black);
            set_color(&mut g.right, Color::Black);
            g.color = Color::Red;
            proof {
                assert(is_rb(g.left, c + 1));
                assert(is_rb(g.right, c + 1));
                assert(is_rb(Some(g), c + 1));
            }
            (g, Ghost(0))
        } else {
            let ghost mut k: nat = 1;
            if red_right_of(&g.left) {
                let p = g.left.take().unwrap();
                g.left = Some(rotate_left(p));
                proof {
                    k = 2;
                    lemma_seq_of_some(p);
                    lemma_seq_of_some(g.left->0);
                }
            }
            set_color(&mut g.left, Color::Black);
            g.color = Color::Red;
            let r = rotate_right(g);
            proof {
                reveal_with_fuel(is_rb, 3);
            }
            (r, Ghost(k))
        }
    } else {
        proof {
            if g.color == Color::Black {
                reveal_with_fuel(is_rb, 2);
                assert(is_rb(g.left, c));
                assert(is_rb(Some(g), c + 1));
            }
        }
        (g, Ghost(0))
    }
}

/// Mirror of `fix_insert_left` for the right side of `g`.
fn fix_insert_right(g: Box<RbNode>, Ghost(c): Ghost<nat>) -> (r: (Box<RbNode>, Ghost<nat>))
    requires
        (g.color == Color::Black && (is_rb(g.right, c) || infra(g.right, c)) && is_rb(g.left, c))
            || (g.color == Color::Red && is_rb(g.left, c) && is_rb(g.right, c) && !(red(g.left)
            && red(g.right))),
    ensures
        *r.0 == fixed_ins_right(*g),
        r.0.entries() == g.entries(),
        g.color == Color::Black ==> is_rb(Some(r.0), c + 1),
        g.color == Color::Red ==> infra(Some(r.0), c),
        r.1@ <= 2,
        r.1@ > 0 ==> g.color == Color::Black && r.0.color == Color::Black,
        !(red(g.right) && (red(g.right->0.left) || red(g.right->0.right))) ==> r.0 == g && r.1@ == 0,
{
    let ghost g0 = *g;
    let mut g = g;
    if red_left_of(&g.right) || red_right_of(&g.right) {
        if is_red(&g.left) {
            proof {
                assert(g0.color == Color::Black);
                assert(is_rb(g0.left->0.left, c) && is_rb(g0.left->0.right, c));
                assert(is_rb(g0.right->0.left, c) && is_rb(g0.right->0.right, c));
            }
            set_color(&mut g.left, Color::Black);
            set_color(&mut g.right, Color::Black);
            g.color = Color::Red;
            proof {
                assert(is_rb(g.left, c + 1));
                assert(is_rb(g.right, c + 1));
                assert(is_rb(Some(g), c + 1));
            }
            (g, Ghost(0))
        } else {
            let ghost mut k: nat = 1;
            if red_left_of(&g.right) {
                let p = g.right.take().unwrap();
                g.right = Some(rotate_right(p));
                proof {
                    k = 2;
                    lemma_seq_of_some(p);
                    lemma_seq_of_some(g.right->0);
                }
            }
            set_color(&mut g.right, Color::Black);
            g.color = Color::Red;
            let r = rotate_left(g);
            proof {
                reveal_with_fuel(is_rb, 3);
            }
            (r, Ghost(k))
        }
    } else {
        proof {
            if g.color == Color::Black {
                reveal_with_fuel(is_rb, 2);
                assert(is_rb(g.right, c));
                assert(is_rb(Some(g), c + 1));
            }
        }
        (g, Ghost(0))
    }
}

/// Insert an entry below `t`, at its place in the order of the tree.
/// Below a black node (or at a missing child) the result is a red-black
/// tree of the same black height; below a red node it may be a red node
/// with one red child, which the caller repairs. The second part of the
/// result counts the rotations made: at most two, and once one is made the
/// subtree is repaired, so no node above needs another.
fn ins(t: Link, key: u64, id: usize, Ghost(h): Ghost<nat>) -> (r: (Box<RbNode>, Ghost<nat>))
    requires
        sorted(seq_of(t)),
        !seq_of(t).contains((key, id)),
        is_rb(t, h),
    ensures
        *r.0 == inserted(t, key, id),
        r.0.entries() == sorted_insert(seq_of(t), (key, id)),
        !red(t) ==> is_rb(Some(r.0), h),
        red(t) ==> infra(Some(r.0), h),
        r.1@ <= 2,
        r.1@ > 0 && !red(t) ==> r.0.color == Color::Black,
        r.1@ > 0 ==> !(r.0.color == Color::Red && (red(r.0.left) || red(r.0.right))),
    decreases t,
{
    match t {
        None => {
            let n = Box::new(RbNode::new(key, id));
            assert(sorted_insert(seq_of(t), (key, id)) =~= seq![(key, id)]);
            proof {
                reveal_with_fuel(is_rb, 2);
            }
            (n, Ghost(0))
        },
        Some(n) => {
            let ghost n0 = *n;
            let mut n = n;
            let ghost c: nat = match n0.color {
                Color::Red => h,
                Color::Black => (h - 1) as nat,
            };
            proof {
                lemma_seq_of_some(n);
                lemma_sorted_concat(seq_of(n0.left), n0.entry(), seq_of(n0.right));
                lemma_contains_concat(seq_of(n0.left), n0.entry(), seq_of(n0.right), (key, id));
            }
            if key < n.key || (key == n.key && id < n.id) {
                let l = n.left.take();
                let (nl, k1) = ins(l, key, id, Ghost(c));
                n.left = Some(nl);
                proof {
                    lemma_seq_of_some(nl);
                    lemma_sorted_insert_left(seq_of(n0.left), n0.entry(), seq_of(n0.right), (key, id));
                }
                let (r, k2) = fix_insert_left(n, Ghost(c));
                (r, Ghost(k1@ + k2@))
            } else {
                let rt = n.right.take();
                let (nr, k1) = ins(rt, key, id, Ghost(c));
                n.right = Some(nr);
                proof {
                    lemma_seq_of_some(nr);
                    lemma_sorted_insert_right(seq_of(n0.left), n0.entry(), seq_of(n0.right), (key, id));
                }
                let (r, k2) = fix_insert_right(n, Ghost(c));
                (r, Ghost(k1@ + k2@))
            }
        },
    }
}


/// Black height of a node whose children have black height `c`.
spec fn node_height(color: Color, c: nat) -> nat {
    match color {
        Color::Red => c,
        Color::Black => c + 1,
    }
}

/// What deleting below a subtree of root color `color` and black height
/// `hh` leaves: a red-black tree of the same black height, or, when the flag
/// says so, of one black level less; and a red root only where the root was
/// red.
spec fn del_ok(r: Link, short: bool, color: Color, hh: nat) -> bool {
    &&& short ==> color == Color::Black && hh >= 1 && is_rb(r, (hh - 1) as nat)
    &&& !short ==> is_rb(r, hh)
    &&& red(r) ==> color == Color::Red
}

/// Deletion fix-up when the left subtree of `n` lost one black level and its
/// sibling is black (or missing): recolor the sibling when both of its
/// children are black, otherwise rotate a red nephew up. The flag tells
/// whether the subtree as a whole is still one black level short.
fn fix_del_left_black(n: Box<RbNode>, Ghost(c): Ghost<nat>) -> (r: (Box<RbNode>, bool, Ghost<nat>))
    requires
        c >= 1,
        is_rb(n.left, (c - 1) as nat),
        !red(n.left),
        is_rb(n.right, c),
        !red(n.right),
    ensures
        (*r.0, r.1) == fixed_del_left_black(*n),
        r.0.entries() == n.entries(),
        del_ok(Some(r.0), r.1, n.color, node_height(n.color, c)),
        r.2@ <= 2,
        r.2@ > 0 ==> !r.1,
{
    let mut n = n;
    proof {
        assert(n.right is Some);
    }
    if n.right.is_none() || (!is_red(&n.right.as_ref().unwrap().left) && !is_red(
        &n.right.as_ref().unwrap().right,
    )) {
        set_color(&mut n.right, Color::Red);
        proof {
            assert(is_rb(n.right, (c - 1) as nat));
        }
        match n.color {
            Color::Red => {
                n.color = Color::Black;
                proof {
                    assert(is_rb(Some(n), c));
                }
                (n, false, Ghost(0))
            },
            Color::Black => {
                proof {
                    assert(is_rb(Some(n), c));
                }
                (n, true, Ghost(0))
            },
        }
    } else {
        let mut s = n.right.take().unwrap();
        let ghost s0 = *s;
        let ghost mut k: nat = 1;
        proof {
            assert(is_rb(s0.left, (c - 1) as nat) && is_rb(s0.right, (c - 1) as nat));
        }
        if !is_red(&s.right) {
            proof {
                assert(red(s0.left));
                assert(is_rb(s0.left->0.left, (c - 1) as nat) && is_rb(s0.left->0.right, (c - 1) as nat));
            }
            set_color(&mut s.left, Color::Black);
            s.color = Color::Red;
            s = rotate_right(s);
            proof {
                k = 2;
                assert(is_rb(s.right, (c - 1) as nat));
                assert(is_rb(Some(s), c));
                assert(red(s.right));
            }
        }
        let ghost s1 = *s;
        proof {
            assert(is_rb(Some(s), c));
            assert(red(s1.right));
            assert(is_rb(s1.right->0.left, (c - 1) as nat) && is_rb(s1.right->0.right, (c - 1) as nat));
            assert(is_rb(s1.left, (c - 1) as nat));
        }
        s.color = n.color;
        set_color(&mut s.right, Color::Black);
        proof {
            lemma_seq_of_some(s);
            assert(is_rb(s.right, c));
        }
        n.right = Some(s);
        n.color = Color::Black;
        let r = rotate_left(n);
        proof {
            assert(is_rb(r.left, c));
            assert(is_rb(r.right, c));
            reveal_with_fuel(is_rb, 2);
        }
        (r, false, Ghost(k))
    }
}

/// Mirror of `fix_del_left_black` for a short right subtree.
fn fix_del_right_black(n: Box<RbNode>, Ghost(c): Ghost<nat>) -> (r: (Box<RbNode>, bool, Ghost<nat>))
    requires
        c >= 1,
        is_rb(n.right, (c - 1) as nat),
        !red(n.right),
        is_rb(n.left, c),
        !red(n.left),
    ensures
        (*r.0, r.1) == fixed_del_right_black(*n),
        r.0.entries() == n.entries(),
        del_ok(Some(r.0), r.1, n.color, node_height(n.color, c)),
        r.2@ <= 2,
        r.2@ > 0 ==> !r.1,
{
    let mut n = n;
    proof {
        assert(n.left is Some);
    }
    if n.left.is_none() || (!is_red(&n.left.as_ref().unwrap().right) && !is_red(
        &n.left.as_ref().unwrap().left,
    )) {
        set_color(&mut n.left, Color::Red);
        proof {
            assert(is_rb(n.left, (c - 1) as nat));
        }
        match n.color {
            Color::Red => {
                n.color = Color::Black;
                proof {
                    assert(is_rb(Some(n), c));
                }
                (n, false, Ghost(0))
            },
            Color::Black => {
                proof {
                    assert(is_rb(Some(n), c));
                }
                (n, true, Ghost(0))
            },
        }
    } else {
        let mut s = n.left.take().unwrap();
        let ghost s0 = *s;
        let ghost mut k: nat = 1;
        proof {
            assert(is_rb(s0.left, (c - 1) as nat) && is_rb(s0.right, (c - 1) as nat));
        }
        if !is_red(&s.left) {
            proof {
                assert(red(s0.right));
                assert(is_rb(s0.right->0.left, (c - 1) as nat) && is_rb(s0.right->0.right, (c - 1) as nat));
            }
            set_color(&mut s.right, Color::Black);
            s.color = Color::Red;
            s = rotate_left(s);
            proof {
                k = 2;
                assert(is_rb(s.left, (c - 1) as nat));
                assert(is_rb(Some(s), c));
                assert(red(s.left));
            }
        }
        let ghost s1 = *s;
        proof {
            assert(is_rb(Some(s), c));
            assert(red(s1.left));
            assert(is_rb(s1.left->0.left, (c - 1) as nat) && is_rb(s1.left->0.right, (c - 1) as nat));
            assert(is_rb(s1.right, (c - 1) as nat));
        }
        s.color = n.color;
        set_color(&mut s.left, Color::Black);
        proof {
            lemma_seq_of_some(s);
            assert(is_rb(s.left, c));
        }
        n.left = Some(s);
        n.color = Color::Black;
        let r = rotate_right(n);
        proof {
            assert(is_rb(r.left, c));
            assert(is_rb(r.right, c));
            reveal_with_fuel(is_rb, 2);
        }
        (r, false, Ghost(k))
    }
}

/// Deletion fix-up when the left subtree of `n` lost one black level: a red
/// sibling is first rotated up so that the sibling becomes black.
fn fix_del_left(n: Box<RbNode>, Ghost(c): Ghost<nat>) -> (r: (Box<RbNode>, bool, Ghost<nat>))
    requires
        c >= 1,
        is_rb(n.left, (c - 1) as nat),
        !red(n.left),
        is_rb(n.right, c),
        n.color == Color::Red ==> !red(n.right),
    ensures
        (*r.0, r.1) == fixed_del_left(*n),
        r.0.entries() == n.entries(),
        del_ok(Some(r.0), r.1, n.color, node_height(n.color, c)),
        r.2@ <= 3,
        r.2@ > 0 ==> !r.1,
{
    if is_red(&n.right) {
        let ghost n0 = *n;
        let mut n = n;
        proof {
            assert(n0.color == Color::Black);
            assert(is_rb(n0.right->0.left, c) && is_rb(n0.right->0.right, c));
        }
        set_color(&mut n.right, Color::Black);
        n.color = Color::Red;
        let mut top = rotate_left(n);
        let inner = top.left.take().unwrap();
        let (inner2, short, k) = fix_del_left_black(inner, Ghost(c));
        top.left = Some(inner2);
        proof {
            lemma_seq_of_some(inner);
            lemma_seq_of_some(inner2);
            assert(!short);
            assert(is_rb(top.left, c));
            assert(is_rb(top.right, c));
            assert(is_rb(Some(top), c + 1));
        }
        (top, short, Ghost(k@ + 1))
    } else {
        fix_del_left_black(n, Ghost(c))
    }
}

/// Mirror of `fix_del_left` for a short right subtree.
fn fix_del_right(n: Box<RbNode>, Ghost(c): Ghost<nat>) -> (r: (Box<RbNode>, bool, Ghost<nat>))
    requires
        c >= 1,
        is_rb(n.right, (c - 1) as nat),
        !red(n.right),
        is_rb(n.left, c),
        n.color == Color::Red ==> !red(n.left),
    ensures
        (*r.0, r.1) == fixed_del_right(*n),
        r.0.entries() == n.entries(),
        del_ok(Some(r.0), r.1, n.color, node_height(n.color, c)),
        r.2@ <= 3,
        r.2@ > 0 ==> !r.1,
{
    if is_red(&n.left) {
        let ghost n0 = *n;
        let mut n = n;
        proof {
            assert(n0.color == Color::Black);
            assert(is_rb(n0.left->0.left, c) && is_rb(n0.left->0.right, c));
        }
        set_color(&mut n.left, Color::Black);
        n.color = Color::Red;
        let mut top = rotate_right(n);
        let inner = top.right.take().unwrap();
        let (inner2, short, k) = fix_del_right_black(inner, Ghost(c));
        top.right = Some(inner2);
        proof {
            lemma_seq_of_some(inner);
            lemma_seq_of_some(inner2);
            assert(!short);
            assert(is_rb(top.left, c));
            assert(is_rb(top.right, c));
            assert(is_rb(Some(top), c + 1));
        }
        (top, short, Ghost(k@ + 1))
    } else {
        fix_del_right_black(n, Ghost(c))
    }
}

/// Unlink a node that has at most the one child `child`: a black node leaves
/// its place one black level short unless the child is red and can take over
/// the black.
fn splice(color: Color, child: Link, Ghost(c): Ghost<nat>) -> (r: (Link, bool))
    requires
        is_rb(child, c),
        color == Color::Red ==> !red(child),
    ensures
        r == spliced(color, child),
        seq_of(r.0) == seq_of(child),
        del_ok(r.0, r.1, color, node_height(color, c)),
{
    match color {
        Color::Red => (child, false),
        Color::Black => {
            if is_red(&child) {
                let mut ch = child;
                set_color(&mut ch, Color::Black);
                proof {
                    reveal_with_fuel(is_rb, 2);
                }
                (ch, false)
            } else {
                (child, true)
            }
        },
    }
}

/// Remove the leftmost entry below `n`. The last part of the result counts
/// the rotations made: at most three, all in the one repair that ends the
/// shortage.
fn del_min(n: Box<RbNode>, Ghost(hh): Ghost<nat>) -> (r: (Entry, Link, bool, Ghost<nat>))
    requires
        is_rb(Some(n), hh),
    ensures
        n.entries().len() > 0,
        (r.0, r.1, r.2) == min_removed(*n),
        r.0 == n.entries()[0],
        seq_of(r.1) == n.entries().drop_first(),
        del_ok(r.1, r.2, n.color, hh),
        r.3@ <= 3,
        r.3@ > 0 ==> !r.2,
    decreases n,
{
    let ghost n0 = *n;
    let ghost c: nat = match n0.color {
        Color::Red => hh,
        Color::Black => (hh - 1) as nat,
    };
    let mut n = n;
    if n.left.is_none() {
        let e = (n.key, n.id);
        let rt = n.right.take();
        let (rest, short) = splice(n.color, rt, Ghost(c));
        assert(n0.entries().drop_first() =~= seq_of(n0.right));
        (e, rest, short, Ghost(0))
    } else {
        let l = n.left.take().unwrap();
        proof {
            lemma_seq_of_some(l);
        }
        let (e, nl, short, k) = del_min(l, Ghost(c));
        n.left = nl;
        assert(n.entries() =~= n0.entries().drop_first());
        if short {
            let (m, short2, k2) = fix_del_left(n, Ghost(c));
            proof {
                lemma_seq_of_some(m);
            }
            (e, Some(m), short2, k2)
        } else {
            proof {
                lemma_seq_of_some(n);
                assert(is_rb(Some(n), hh));
            }
            (e, Some(n), false, k)
        }
    }
}


/// Where an entry sits relative to a node: in the left subtree, at the node,
/// or in the right subtree.
enum Side {
    Left,
    Here,
    Right,
}

/// The parts of a sequence with distinct ids have distinct ids.
proof fn lemma_ids_distinct_concat(a: Seq<Entry>, x: Entry, b: Seq<Entry>)
    requires
        ids_distinct(a + seq![x] + b),
    ensures
        ids_distinct(a),
        ids_distinct(b),
{
    let s = a + seq![x] + b;
    assert forall|i: int, j: int|
        0 <= i < a.len() && 0 <= j < a.len() && i != j implies #[trigger] a[i].1
        != #[trigger] a[j].1 by {
        assert(s[i] == a[i] && s[j] == a[j]);
    }
    assert forall|i: int, j: int|
        0 <= i < b.len() && 0 <= j < b.len() && i != j implies #[trigger] b[i].1
        != #[trigger] b[j].1 by {
        assert(s[a.len() + 1 + i] == b[i] && s[a.len() + 1 + j] == b[j]);
    }
}

/// Decide on which side of `n` the entry at position `i` of its subtree lies.
fn side(n: &RbNode, key: u64, id: usize, Ghost(i): Ghost<int>) -> (r: Side)
    requires
        sorted(n.entries()),
        ids_distinct(n.entries()),
        0 <= i < n.entries().len(),
        n.entries()[i] == (key, id),
    ensures
        r is Left <==> entry_lt((key, id), n.entry()),
        r is Here <==> (key, id) == n.entry(),
        r is Left <==> i < seq_of(n.left).len(),
        r is Here <==> i == seq_of(n.left).len(),
        r is Right <==> i > seq_of(n.left).len(),
{
    let ghost s = n.entries();
    let ghost l = seq_of(n.left).len() as int;
    proof {
        lemma_sorted_concat(seq_of(n.left), n.entry(), seq_of(n.right));
        assert(s[l] == n.entry());
    }
    if key < n.key || (key == n.key && id < n.id) {
        assert(i < l) by {
            if i > l {
                assert(entry_lt(s[l], s[i]));
            }
        }
        Side::Left
    } else if key == n.key && id == n.id {
        assert(i == l) by {
            if i < l {
                assert(entry_lt(s[i], s[l]));
            } else if i > l {
                assert(entry_lt(s[l], s[i]));
            }
        }
        Side::Here
    } else {
        assert(i > l) by {
            if i < l {
                assert(entry_lt(s[i], s[l]));
            }
        }
        Side::Right
    }
}

/// Whether the entry `(key, id)` is below `t`.
fn contains_entry(t: &Link, key: u64, id: usize) -> (r: bool)
    requires
        sorted(seq_of(*t)),
    ensures
        r == seq_of(*t).contains((key, id)),
    decreases *t,
{
    match t {
        None => false,
        Some(n) => {
            let ghost ls = seq_of(n.left);
            let ghost rs = seq_of(n.right);
            let ghost e = (key, id);
            proof {
                lemma_seq_of_some(*n);
                lemma_sorted_concat(ls, n.entry(), rs);
                lemma_contains_concat(ls, n.entry(), rs, e);
                if ls.contains(e) && !entry_lt(e, n.entry()) {
                    let j = choose|j: int| 0 <= j < ls.len() && ls[j] == e;
                    assert(entry_lt(ls[j], n.entry()));
                }
                if rs.contains(e) && (entry_lt(e, n.entry()) || e == n.entry()) {
                    let j = choose|j: int| 0 <= j < rs.len() && rs[j] == e;
                    assert(entry_lt(n.entry(), rs[j]));
                }
            }
            if key == n.key && id == n.id {
                true
            } else if key < n.key || (key == n.key && id < n.id) {
                contains_entry(&n.left, key, id)
            } else {
                contains_entry(&n.right, key, id)
            }
        },
    }
}

/// The first entry below `n`.
fn min_entry(n: &RbNode) -> (r: Entry)
    ensures
        n.entries().len() > 0,
        r == n.entries()[0],
    decreases *n,
{
    match &n.left {
        None => {
            assert(n.entries()[0] == n.entry());
            (n.key, n.id)
        },
        Some(l) => {
            proof {
                lemma_seq_of_some(*l);
            }
            min_entry(l)
        },
    }
}

/// The last entry below `n`.
fn max_entry(n: &RbNode) -> (r: Entry)
    ensures
        n.entries().len() > 0,
        r == n.entries().last(),
    decreases *n,
{
    match &n.right {
        None => {
            assert(n.entries().last() == n.entry());
            (n.key, n.id)
        },
        Some(rt) => {
            proof {
                lemma_seq_of_some(*rt);
            }
            max_entry(rt)
        },
    }
}


/// Remove the entry at position `i` below `n`.
#[verifier::spinoff_prover]
#[verifier::rlimit(60)]
fn del(n: Box<RbNode>, key: u64, id: usize, Ghost(i): Ghost<int>, Ghost(hh): Ghost<nat>) -> (r: (
    Link,
    bool,
    Ghost<nat>,
))
    requires
        sorted(n.entries()),
        ids_distinct(n.entries()),
        0 <= i < n.entries().len(),
        n.entries()[i] == (key, id),
        is_rb(Some(n), hh),
    ensures
        (r.0, r.1) == removed(*n, key, id),
        seq_of(r.0) == n.entries().remove(i),
        del_ok(r.0, r.1, n.color, hh),
        r.2@ <= 3,
        r.2@ > 0 ==> !r.1,
    decreases n,
{
    let ghost n0 = *n;
    let ghost c: nat = match n0.color {
        Color::Red => hh,
        Color::Black => (hh - 1) as nat,
    };
    let ghost s = n0.entries();
    let ghost ls = seq_of(n0.left);
    let ghost rs = seq_of(n0.right);
    let ghost l = ls.len() as int;
    proof {
        lemma_sorted_concat(ls, n0.entry(), rs);
        lemma_ids_distinct_concat(ls, n0.entry(), rs);
        assert forall|j: int| 0 <= j < ls.len() implies s[j] == ls[j] by {}
        assert forall|j: int| 0 <= j < rs.len() implies s[l + 1 + j] == rs[j] by {}
    }
    let mut n = n;
    match side(&n, key, id, Ghost(i)) {
        Side::Here => {
            if n.left.is_none() {
                let rt = n.right.take();
                assert(s.remove(i) =~= rs);
                let (rest, short) = splice(n.color, rt, Ghost(c));
                (rest, short, Ghost(0))
            } else if n.right.is_none() {
                let lt = n.left.take();
                assert(s.remove(i) =~= ls);
                let (rest, short) = splice(n.color, lt, Ghost(c));
                (rest, short, Ghost(0))
            } else {
                let rt = n.right.take().unwrap();
                proof {
                    lemma_seq_of_some(rt);
                }
                let (m, nr, short, k) = del_min(rt, Ghost(c));
                n.key = m.0;
                n.id = m.1;
                n.right = nr;
                assert(n.entries() =~= s.remove(i));
                if short {
                    let (t, short2, k2) = fix_del_right(n, Ghost(c));
                    proof {
                        lemma_seq_of_some(t);
                    }
                    (Some(t), short2, k2)
                } else {
                    proof {
                        lemma_seq_of_some(n);
                    }
                    (Some(n), false, k)
                }
            }
        },
        Side::Left => {
            let lt = n.left.take().unwrap();
            proof {
                lemma_seq_of_some(lt);
                assert(ls[i] == (key, id));
            }
            let (nl, short, k) = del(lt, key, id, Ghost(i), Ghost(c));
            n.left = nl;
            assert(n.entries() =~= s.remove(i));
            if short {
                let (t, short2, k2) = fix_del_left(n, Ghost(c));
                proof {
                    lemma_seq_of_some(t);
                }
                (Some(t), short2, k2)
            } else {
                proof {
                    lemma_seq_of_some(n);
                }
                (Some(n), false, k)
            }
        },
        Side::Right => {
            let rt = n.right.take().unwrap();
            proof {
                lemma_seq_of_some(rt);
                assert(rs[i - l - 1] == (key, id));
            }
            let (nr, short, k) = del(rt, key, id, Ghost(i - l - 1), Ghost(c));
            n.right = nr;
            assert(n.entries() =~= s.remove(i));
            if short {
                let (t, short2, k2) = fix_del_right(n, Ghost(c));
                proof {
                    lemma_seq_of_some(t);
                }
                (Some(t), short2, k2)
            } else {
                proof {
                    lemma_seq_of_some(n);
                }
                (Some(n), false, k)
            }
        },
    }
}

/// The entry that follows position `i` below `n`, if any.
fn next_entry(n: &RbNode, key: u64, id: usize, Ghost(i): Ghost<int>) -> (r: Option<Entry>)
    requires
        sorted(n.entries()),
        ids_distinct(n.entries()),
        0 <= i < n.entries().len(),
        n.entries()[i] == (key, id),
    ensures
        r == (if i + 1 < n.entries().len() {
            Some(n.entries()[i + 1])
        } else {
            None
        }),
    decreases *n,
{
    let ghost s = n.entries();
    let ghost ls = seq_of(n.left);
    let ghost rs = seq_of(n.right);
    let ghost l = ls.len() as int;
    proof {
        lemma_sorted_concat(ls, n.entry(), rs);
        lemma_ids_distinct_concat(ls, n.entry(), rs);
        assert forall|j: int| 0 <= j < ls.len() implies s[j] == ls[j] by {}
        assert forall|j: int| 0 <= j < rs.len() implies s[l + 1 + j] == rs[j] by {}
        assert(s[l] == n.entry());
    }
    match side(n, key, id, Ghost(i)) {
        Side::Here => {
            match &n.right {
                None => None,
                Some(rt) => {
                    proof {
                        lemma_seq_of_some(*rt);
                    }
                    Some(min_entry(rt))
                },
            }
        },
        Side::Left => {
            let lt = n.left.as_ref().unwrap();
            proof {
                lemma_seq_of_some(*lt);
                assert(ls[i] == (key, id));
            }
            match next_entry(lt, key, id, Ghost(i)) {
                None => Some((n.key, n.id)),
                Some(e) => Some(e),
            }
        },
        Side::Right => {
            let rt = n.right.as_ref().unwrap();
            proof {
                lemma_seq_of_some(*rt);
                assert(rs[i - l - 1] == (key, id));
            }
            next_entry(rt, key, id, Ghost(i - l - 1))
        },
    }
}

/// Lowering keys distributes over the parts of a sequence.
proof fn lemma_lower_keys_concat(a: Seq<Entry>, x: Entry, b: Seq<Entry>, d: u64)
    ensures
        lower_keys(a + seq![x] + b, d) == lower_keys(a, d) + seq![(sat_sub(x.0, d), x.1)]
            + lower_keys(b, d),
{
    assert(lower_keys(a + seq![x] + b, d) =~= lower_keys(a, d) + seq![(sat_sub(x.0, d), x.1)]
        + lower_keys(b, d));
}

/// Lower every key below `t` by `d`, saturating at zero.
fn lower(t: Link, d: u64, Ghost(h): Ghost<nat>) -> (r: Link)
    requires
        is_rb(t, h),
    ensures
        seq_of(r) == lower_keys(seq_of(t), d),
        is_rb(r, h),
        red(r) == red(t),
    decreases t,
{
    match t {
        None => {
            assert(lower_keys(seq_of(t), d) =~= Seq::<Entry>::empty());
            None
        },
        Some(n) => {
            let ghost n0 = *n;
            let ghost c: nat = match n0.color {
                Color::Red => h,
                Color::Black => (h - 1) as nat,
            };
            let mut n = n;
            n.key = n.key.saturating_sub(d);
            let lt = n.left.take();
            n.left = lower(lt, d, Ghost(c));
            let rt = n.right.take();
            n.right = lower(rt, d, Ghost(c));
            proof {
                lemma_seq_of_some(n);
                lemma_lower_keys_concat(seq_of(n0.left), n0.entry(), seq_of(n0.right), d);
            }
            Some(n)
        },
    }
}


// ---------------------------------------------------------------------------
// Preservation of the ordering and of distinct ids
// ---------------------------------------------------------------------------

/// Removing an entry keeps a sequence sorted and its ids distinct.
pub proof fn lemma_remove_keeps_order(s: Seq<Entry>, i: int)
    requires
        sorted(s),
        ids_distinct(s),
        0 <= i < s.len(),
    ensures
        sorted(s.remove(i)),
        ids_distinct(s.remove(i)),
        forall|id: usize| has_id(s.remove(i), id) <==> (has_id(s, id) && id != s[i].1),
{
    let r = s.remove(i);
    assert forall|a: int, b: int| 0 <= a <= b < r.len() implies #[trigger] r[a].0
        <= #[trigger] r[b].0 by {
        let sa = if a < i { a } else { a + 1 };
        let sb = if b < i { b } else { b + 1 };
        assert(r[a] == s[sa] && r[b] == s[sb]);
    }
    assert forall|a: int, b: int|
        0 <= a < r.len() && 0 <= b < r.len() && a != b implies #[trigger] r[a].1
        != #[trigger] r[b].1 by {
        let sa = if a < i { a } else { a + 1 };
        let sb = if b < i { b } else { b + 1 };
        assert(r[a] == s[sa] && r[b] == s[sb]);
    }
    assert forall|id: usize| has_id(r, id) <==> (has_id(s, id) && id != s[i].1) by {
        if has_id(r, id) {
            let a = choose|a: int| 0 <= a < r.len() && r[a].1 == id;
            let sa = if a < i { a } else { a + 1 };
            assert(r[a] == s[sa]);
            assert(s[sa].1 != s[i].1);
        }
        if has_id(s, id) && id != s[i].1 {
            let a = choose|a: int| 0 <= a < s.len() && s[a].1 == id;
            if a < i {
                assert(r[a] == s[a]);
            } else {
                assert(a != i);
                assert(r[a - 1] == s[a]);
            }
        }
    }
}

/// Lowering keys that all stay above zero keeps a sequence sorted and its
/// ids unchanged.
pub proof fn lemma_lower_keys_keeps_order(s: Seq<Entry>, d: u64)
    requires
        sorted(s),
        ids_distinct(s),
        forall|i: int| 0 <= i < s.len() ==> (#[trigger] s[i]).0 > d,
    ensures
        sorted(lower_keys(s, d)),
        ids_distinct(lower_keys(s, d)),
        lower_keys(s, d).len() == s.len(),
        forall|id: usize| has_id(lower_keys(s, d), id) <==> has_id(s, id),
{
    let r = lower_keys(s, d);
    assert forall|a: int, b: int| 0 <= a < b < r.len() implies entry_lt(#[trigger] r[a], #[trigger] r[b]) by {
        assert(entry_lt(s[a], s[b]));
        assert(s[a].0 > d && s[b].0 > d);
    }
    assert forall|a: int, b: int|
        0 <= a < r.len() && 0 <= b < r.len() && a != b implies #[trigger] r[a].1
        != #[trigger] r[b].1 by {
        assert(s[a].1 != s[b].1);
    }
    assert forall|id: usize| has_id(r, id) <==> has_id(s, id) by {
        if has_id(r, id) {
            let a = choose|a: int| 0 <= a < r.len() && r[a].1 == id;
            assert(s[a].1 == id);
        }
        if has_id(s, id) {
            let a = choose|a: int| 0 <= a < s.len() && s[a].1 == id;
            assert(r[a].1 == id);
        }
    }
}

/// In a sequence with distinct ids, an entry's position is the one `pos_of`
/// names.
pub proof fn lemma_pos_of(s: Seq<Entry>, i: int)
    requires
        ids_distinct(s),
        0 <= i < s.len(),
    ensures
        pos_of(s, s[i].1) == i,
{
    let p = pos_of(s, s[i].1);
    assert(0 <= p < s.len() && s[p].1 == s[i].1);
    if p != i {
        assert(s[p].1 != s[i].1);
    }
}

// ---------------------------------------------------------------------------
// Laws of the order
// ---------------------------------------------------------------------------

/// Removing an entry right after inserting it gives back the sequence it was
/// inserted into.
pub proof fn lemma_remove_undoes_insert(s: Seq<Entry>, key: u64, id: usize)
    requires
        sorted(s),
        ids_distinct(s),
        !has_id(s, id),
    ensures
        sorted_insert(s, (key, id)).remove(pos_of(sorted_insert(s, (key, id)), id)) == s,
{
    lemma_upper_pos_bounds(s, (key, id));
    let p = upper_pos(s, (key, id));
    let s2 = sorted_insert(s, (key, id));
    lemma_insert_ids_distinct(s, p, (key, id));
    assert(s2[p] == (key, id));
    lemma_pos_of(s2, p);
    assert(s2.remove(p) =~= s);
}

/// An inserted entry goes after every entry that comes before it in the
/// order and before every entry that comes after it: among equal keys, in
/// order of id.
pub proof fn lemma_insert_in_order(s: Seq<Entry>, e: Entry)
    requires
        sorted(s),
        !s.contains(e),
    ensures
        ({
            let p = upper_pos(s, e);
            let s2 = sorted_insert(s, e);
            &&& 0 <= p < s2.len()
            &&& s2[p] == e
            &&& forall|i: int| 0 <= i < p ==> entry_lt(#[trigger] s2[i], e) && s2[i] == s[i]
            &&& forall|i: int| p < i < s2.len() ==> entry_lt(e, #[trigger] s2[i]) && s2[i] == s[i - 1]
        }),
{
    lemma_upper_pos(s, e);
    let p = upper_pos(s, e);
    assert forall|i: int| 0 <= i < p implies entry_lt(#[trigger] s[i], e) by {
        if s[i] == e {
            assert(s.contains(e));
        }
    }
}

/// What inserting an entry puts in and leaves in a sequence.
pub proof fn lemma_sorted_insert_contains(s: Seq<Entry>, e: Entry)
    ensures
        forall|x: Entry| #[trigger] sorted_insert(s, e).contains(x) <==> (s.contains(x) || x == e),
{
    let p = upper_pos(s, e);
    lemma_upper_pos_bounds(s, e);
    let r = s.insert(p, e);
    assert forall|x: Entry| #[trigger] sorted_insert(s, e).contains(x) <==> (s.contains(x) || x == e) by {
        if r.contains(x) {
            let k = choose|k: int| 0 <= k < r.len() && r[k] == x;
            if k < p {
                assert(s[k] == x);
            } else if k > p {
                assert(s[k - 1] == x);
            }
        }
        if s.contains(x) {
            let k = choose|k: int| 0 <= k < s.len() && s[k] == x;
            if k < p {
                assert(r[k] == x);
            } else {
                assert(r[k + 1] == x);
            }
        }
        if x == e {
            assert(r[p] == x);
        }
    }
}

/// `upper_pos` lies within the sequence's bounds.
pub proof fn lemma_upper_pos_bounds(s: Seq<Entry>, e: Entry)
    ensures
        0 <= upper_pos(s, e) <= s.len(),
    decreases s.len(),
{
    if s.len() > 0 && !entry_lt(e, s[0]) {
        lemma_upper_pos_bounds(s.drop_first(), e);
    }
}

/// Inserting entries with fresh, distinct ids one after the other keeps the
/// sequence sorted with distinct ids, and holds exactly the old entries and
/// the new ones.
pub proof fn lemma_insert_all(base: Seq<Entry>, items: Seq<Entry>)
    requires
        sorted(base),
        ids_distinct(base),
        ids_distinct(items),
        forall|m: int| 0 <= m < items.len() ==> !has_id(base, (#[trigger] items[m]).1),
    ensures
        sorted(insert_all(base, items)),
        ids_distinct(insert_all(base, items)),
        insert_all(base, items).len() == base.len() + items.len(),
        forall|x: Entry| #[trigger] insert_all(base, items).contains(x) <==> (base.contains(x) || items.contains(x)),
        forall|id: usize| #[trigger] has_id(insert_all(base, items), id) <==> (has_id(base, id) || has_id(items, id)),
    decreases items.len(),
{
    if items.len() > 0 {
        let e = items[0];
        let b2 = sorted_insert(base, e);
        let rest = items.drop_first();
        assert(!has_id(base, e.1));
        assert(!base.contains(e)) by {
            if base.contains(e) {
                let k = choose|k: int| 0 <= k < base.len() && base[k] == e;
                assert(base[k].1 == e.1);
            }
        }
        lemma_sorted_insert_sorted(base, e);
        lemma_upper_pos(base, e);
        lemma_insert_ids_distinct(base, upper_pos(base, e), e);
        lemma_sorted_insert_contains(base, e);
        assert forall|i: int, j: int|
            0 <= i < rest.len() && 0 <= j < rest.len() && i != j implies #[trigger] rest[i].1
            != #[trigger] rest[j].1 by {
            assert(rest[i] == items[i + 1] && rest[j] == items[j + 1]);
        }
        assert forall|m: int| 0 <= m < rest.len() implies !has_id(b2, (#[trigger] rest[m]).1) by {
            assert(rest[m] == items[m + 1]);
            assert(items[m + 1].1 != items[0].1);
        }
        lemma_insert_all(b2, rest);
        assert forall|x: Entry| #[trigger] insert_all(base, items).contains(x) <==> (base.contains(x)
            || items.contains(x)) by {
            if rest.contains(x) {
                let k = choose|k: int| 0 <= k < rest.len() && rest[k] == x;
                assert(items[k + 1] == x);
            }
            if items.contains(x) {
                let k = choose|k: int| 0 <= k < items.len() && items[k] == x;
                if k > 0 {
                    assert(rest[k - 1] == x);
                }
            }
        }
        assert forall|id: usize| #[trigger] has_id(insert_all(base, items), id) <==> (has_id(base, id)
            || has_id(items, id)) by {
            if has_id(rest, id) {
                let k = choose|k: int| 0 <= k < rest.len() && rest[k].1 == id;
                assert(items[k + 1].1 == id);
            }
            if has_id(items, id) {
                let k = choose|k: int| 0 <= k < items.len() && items[k].1 == id;
                if k > 0 {
                    assert(rest[k - 1].1 == id);
                } else {
                    assert(items[0].1 == id);
                }
            }
        }
    } else {
        assert forall|x: Entry| #[trigger] insert_all(base, items).contains(x) <==> (base.contains(x)
            || items.contains(x)) by {}
        assert forall|id: usize| #[trigger] has_id(insert_all(base, items), id) <==> (has_id(base, id)
            || has_id(items, id)) by {}
    }
}

/// The leading entries with key at most `d` are exactly the first
/// `expired_count` ones.
pub proof fn lemma_expired_count(s: Seq<Entry>, d: u64, k: int)
    requires
        0 <= k <= s.len(),
        forall|j: int| 0 <= j < k ==> (#[trigger] s[j]).0 <= d,
        k < s.len() ==> s[k].0 > d,
    ensures
        expired_count(s, d) == k,
    decreases k,
{
    if k > 0 {
        let t = s.drop_first();
        assert forall|j: int| 0 <= j < k - 1 implies (#[trigger] t[j]).0 <= d by {
            assert(t[j] == s[j + 1]);
        }
        if k < s.len() {
            assert(t[k - 1] == s[k]);
        }
        assert(s[0].0 <= d);
        lemma_expired_count(t, d, k - 1);
    } else if s.len() > 0 {
        assert(s[0].0 > d);
    }
}

/// Lowering every key by `d` and putting the entries that reach zero back
/// in their places gives a sorted sequence with distinct ids that holds
/// exactly the lowered entries.
pub proof fn lemma_advanced(s: Seq<Entry>, d: u64)
    requires
        sorted(s),
        ids_distinct(s),
    ensures
        sorted(advanced(s, d)),
        ids_distinct(advanced(s, d)),
        advanced(s, d).len() == s.len(),
        forall|x: Entry| #[trigger] advanced(s, d).contains(x) <==> lower_keys(s, d).contains(x),
        forall|id: usize| #[trigger] has_id(advanced(s, d), id) <==> has_id(s, id),
{
    let p = expired_count(s, d) as int;
    lemma_expired_count_bound(s, d);
    let hi = s.skip(p);
    let lo = s.take(p);
    assert forall|i: int, j: int| 0 <= i < j < hi.len() implies entry_lt(#[trigger] hi[i], #[trigger] hi[j]) by {
        assert(hi[i] == s[i + p] && hi[j] == s[j + p]);
    }
    assert forall|i: int, j: int|
        0 <= i < hi.len() && 0 <= j < hi.len() && i != j implies #[trigger] hi[i].1 != #[trigger] hi[j].1 by {
        assert(hi[i] == s[i + p] && hi[j] == s[j + p]);
    }
    assert forall|i: int| 0 <= i < hi.len() implies (#[trigger] hi[i]).0 > d by {
        assert(hi[i] == s[i + p]);
        assert(s[p].0 > d);
        if i > 0 {
            assert(entry_lt(s[p], s[i + p]));
        }
    }
    lemma_lower_keys_keeps_order(hi, d);
    let base = lower_keys(hi, d);
    let items = lower_keys(lo, d);
    assert forall|i: int, j: int|
        0 <= i < items.len() && 0 <= j < items.len() && i != j implies #[trigger] items[i].1
        != #[trigger] items[j].1 by {
        assert(s[i].1 != s[j].1);
    }
    assert forall|m: int| 0 <= m < items.len() implies !has_id(base, (#[trigger] items[m]).1) by {
        if has_id(base, items[m].1) {
            let k = choose|k: int| 0 <= k < base.len() && base[k].1 == items[m].1;
            assert(s[k + p].1 == s[m].1);
        }
    }
    lemma_insert_all(base, items);
    let l = lower_keys(s, d);
    assert forall|x: Entry| #[trigger] advanced(s, d).contains(x) <==> l.contains(x) by {
        if base.contains(x) {
            let k = choose|k: int| 0 <= k < base.len() && base[k] == x;
            assert(l[k + p] == x);
        }
        if items.contains(x) {
            let k = choose|k: int| 0 <= k < items.len() && items[k] == x;
            assert(l[k] == x);
        }
        if l.contains(x) {
            let k = choose|k: int| 0 <= k < l.len() && l[k] == x;
            if k < p {
                assert(items[k] == x);
            } else {
                assert(base[k - p] == x);
            }
        }
    }
    assert forall|id: usize| #[trigger] has_id(advanced(s, d), id) <==> has_id(s, id) by {
        if has_id(base, id) {
            let k = choose|k: int| 0 <= k < base.len() && base[k].1 == id;
            assert(s[k + p].1 == id);
        }
        if has_id(items, id) {
            let k = choose|k: int| 0 <= k < items.len() && items[k].1 == id;
            assert(s[k].1 == id);
        }
        if has_id(s, id) {
            let k = choose|k: int| 0 <= k < s.len() && s[k].1 == id;
            if k < p {
                assert(items[k].1 == id);
            } else {
                assert(base[k - p].1 == id);
            }
        }
    }
}

/// `expired_count` names leading entries with key at most `d`, followed by
/// one with a larger key if any.
pub proof fn lemma_expired_count_bound(s: Seq<Entry>, d: u64)
    ensures
        expired_count(s, d) <= s.len(),
        forall|j: int| 0 <= j < expired_count(s, d) ==> (#[trigger] s[j]).0 <= d,
        expired_count(s, d) < s.len() ==> s[expired_count(s, d) as int].0 > d,
    decreases s.len(),
{
    if s.len() > 0 && s[0].0 <= d {
        let t = s.drop_first();
        lemma_expired_count_bound(t, d);
        assert forall|j: int| 0 <= j < expired_count(s, d) implies (#[trigger] s[j]).0 <= d by {
            if j > 0 {
                assert(s[j] == t[j - 1]);
            }
        }
        if expired_count(s, d) < s.len() {
            assert(s[expired_count(s, d) as int] == t[expired_count(t, d) as int]);
        }
    }
}

/// The first entry of a sorted sequence has the smallest key.
pub proof fn lemma_first_is_smallest(s: Seq<Entry>)
    requires
        sorted(s),
        s.len() > 0,
    ensures
        forall|i: int| 0 <= i < s.len() ==> s[0].0 <= (#[trigger] s[i]).0,
{
}

// ---------------------------------------------------------------------------
// Balance
// ---------------------------------------------------------------------------

/// Two to the power `n`.
pub open spec fn exp2(n: nat) -> nat
    decreases n,
{
    if n == 0 {
        1
    } else {
        2 * exp2((n - 1) as nat)
    }
}

/// The number of nodes on the longest path from the root down.
pub closed spec fn depth(t: Link) -> nat
    decreases t,
{
    match t {
        None => 0,
        Some(n) => 1 + if depth(n.left) >= depth(n.right) {
            depth(n.left)
        } else {
            depth(n.right)
        },
    }
}

proof fn lemma_exp2_monotone(a: nat, b: nat)
    requires
        a <= b,
    ensures
        exp2(a) <= exp2(b),
    decreases b,
{
    if a < b {
        lemma_exp2_monotone(a, (b - 1) as nat);
    }
}

/// Powers of two add their exponents when multiplied.
proof fn lemma_exp2_add(a: nat, b: nat)
    ensures
        exp2(a + b) == exp2(a) * exp2(b),
    decreases a,
{
    if a > 0 {
        let p = (a - 1) as nat;
        lemma_exp2_add(p, b);
        assert(exp2(a + b) == 2 * exp2(p + b));
        let x = exp2(p);
        let y = exp2(b);
        assert(exp2(a) == 2 * x);
        assert(2 * (x * y) == (2 * x) * y) by (nonlinear_arith);
    } else {
        assert(exp2(a) == 1);
        assert(exp2(a + b) == exp2(b));
        assert(1 * exp2(b) == exp2(b));
    }
}

/// A red-black tree of black height `h` holds at least `2^h - 1` entries.
proof fn lemma_rb_size(t: Link, h: nat)
    requires
        is_rb(t, h),
    ensures
        seq_of(t).len() + 1 >= exp2(h),
    decreases t,
{
    if let Some(n) = t {
        lemma_seq_of_some(n);
        match n.color {
            Color::Red => {
                lemma_rb_size(n.left, h);
                lemma_rb_size(n.right, h);
            },
            Color::Black => {
                lemma_rb_size(n.left, (h - 1) as nat);
                lemma_rb_size(n.right, (h - 1) as nat);
            },
        }
    }
}

/// No path of a red-black tree of black height `h` is longer than `2h`
/// nodes, plus one for a red root.
proof fn lemma_rb_depth(t: Link, h: nat)
    requires
        is_rb(t, h),
    ensures
        depth(t) <= 2 * h + if red(t) {
            1int
        } else {
            0int
        },
    decreases t,
{
    if let Some(n) = t {
        match n.color {
            Color::Red => {
                lemma_rb_depth(n.left, h);
                lemma_rb_depth(n.right, h);
            },
            Color::Black => {
                lemma_rb_depth(n.left, (h - 1) as nat);
                lemma_rb_depth(n.right, (h - 1) as nat);
            },
        }
    }
}

// ---------------------------------------------------------------------------
// The tree
// ---------------------------------------------------------------------------

/// Red-black tree of `(key, id)` entries in ascending order of key, entries
/// with equal keys in ascending order of id.
pub struct RBTree {
    root: Link,
    len: usize,
    height: Ghost<nat>,
    rotations: Ghost<nat>,
}

impl View for RBTree {
    type V = Seq<Entry>;

    closed spec fn view(&self) -> Seq<Entry> {
        seq_of(self.root)
    }
}

impl RBTree {
    /// The tree is ordered, its ids are distinct and its count is exact.
    pub closed spec fn wf(&self) -> bool {
        &&& sorted(self@)
        &&& ids_distinct(self@)
        &&& self.len == self@.len()
        &&& is_rb(self.root, self.height@)
        &&& !red(self.root)
    }

    /// What a well-formed tree guarantees of its entries.
    pub proof fn lemma_wf(&self)
        requires
            self.wf(),
        ensures
            sorted(self@),
            ids_distinct(self@),
            self@.len() <= usize::MAX,
    {
    }

    /// The number of nodes on the longest path from the root down.
    pub closed spec fn depth(&self) -> nat {
        depth(self.root)
    }

    /// The nodes of the tree, from the root down.
    pub closed spec fn shape(&self) -> Link {
        self.root
    }

    /// The entry held by the root node, if there is one.
    pub open spec fn root_entry(&self) -> Option<Entry> {
        match self.shape() {
            None => None,
            Some(n) => Some((n.key, n.id)),
        }
    }

    /// The number of rotations that the last insertion or removal made.
    pub closed spec fn last_rotations(&self) -> nat {
        self.rotations@
    }

    /// The tree stays balanced: its longest path has at most `2 log2(n + 1)`
    /// nodes, for `n` entries, that is `2^depth <= (n + 1)^2`.
    pub proof fn lemma_balanced(&self)
        requires
            self.wf(),
        ensures
            exp2(self.depth()) <= (self@.len() + 1) * (self@.len() + 1),
    {
        let h = self.height@;
        let n1 = self@.len() + 1;
        lemma_rb_depth(self.root, h);
        lemma_rb_size(self.root, h);
        lemma_exp2_monotone(self.depth(), h + h);
        lemma_exp2_add(h, h);
        let e = exp2(h);
        assert(e * e <= n1 * n1) by (nonlinear_arith)
            requires
                e <= n1,
        ;
    }

    /// An empty tree.
    pub fn new() -> (t: Self)
        ensures
            t.wf(),
            t@ == Seq::<Entry>::empty(),
            t.shape() is None,
    {
        RBTree { root: None, len: 0, height: Ghost(0), rotations: Ghost(0) }
    }

    /// The tree holds no entry.
    pub fn is_empty(&self) -> (r: bool)
        requires
            self.wf(),
        ensures
            r == (self@.len() == 0),
    {
        proof {
            if self.root is Some {
                lemma_seq_of_some(self.root->0);
            }
        }
        self.root.is_none()
    }

    /// The number of entries.
    pub fn len(&self) -> (r: usize)
        requires
            self.wf(),
        ensures
            r == self@.len(),
    {
        self.len
    }

    /// The entry at the root of the tree; which entry that is depends on the
    /// tree's shape.
    pub fn root(&self) -> (r: Option<Entry>)
        requires
            self.wf(),
        ensures
            r == self.root_entry(),
            r is None <==> self@.len() == 0,
            r is Some ==> self@.contains(r->0),
    {
        match &self.root {
            None => None,
            Some(n) => {
                proof {
                    lemma_seq_of_some(*n);
                    assert(self@[seq_of(n.left).len() as int] == n.entry());
                }
                Some((n.key, n.id))
            },
        }
    }

    /// The first entry: the smallest key, and the smallest id among entries
    /// with that key.
    pub fn first(&self) -> (r: Option<Entry>)
        requires
            self.wf(),
        ensures
            r == (if self@.len() == 0 {
                None
            } else {
                Some(self@[0])
            }),
    {
        match &self.root {
            None => None,
            Some(n) => {
                proof {
                    lemma_seq_of_some(*n);
                }
                Some(min_entry(n))
            },
        }
    }

    /// The last entry: the largest key, and the largest id among entries with
    /// that key.
    pub fn last(&self) -> (r: Option<Entry>)
        requires
            self.wf(),
        ensures
            r == (if self@.len() == 0 {
                None
            } else {
                Some(self@.last())
            }),
    {
        match &self.root {
            None => None,
            Some(n) => {
                proof {
                    lemma_seq_of_some(*n);
                }
                Some(max_entry(n))
            },
        }
    }

    /// Whether the entry is in the tree.
    pub fn contains(&self, key: u64, id: usize) -> (r: bool)
        requires
            self.wf(),
        ensures
            r == self@.contains((key, id)),
    {
        contains_entry(&self.root, key, id)
    }

    /// The entry that follows `(key, id)` in the tree's order; `None` when it is
    /// the last one or is not in the tree.
    pub fn next(&self, key: u64, id: usize) -> (r: Option<Entry>)
        requires
            self.wf(),
        ensures
            !self@.contains((key, id)) ==> r is None,
            self@.contains((key, id)) ==> r == (if pos_of(self@, id) + 1 < self@.len() {
                Some(self@[pos_of(self@, id) + 1])
            } else {
                None
            }),
    {
        if !contains_entry(&self.root, key, id) {
            return None;
        }
        let ghost i = choose|i: int| 0 <= i < self@.len() && self@[i] == (key, id);
        proof {
            lemma_pos_of(self@, i);
        }
        let n = self.root.as_ref().unwrap();
        proof {
            lemma_seq_of_some(*n);
        }
        next_entry(n, key, id, Ghost(i))
    }

    /// Insert an entry at its place in the order: after every entry with a
    /// smaller key or an equal key and a smaller id. The repair of the tree
    /// makes at most two rotations.
    pub fn insert(&mut self, key: u64, id: usize)
        requires
            old(self).wf(),
            !has_id(old(self)@, id),
            old(self)@.len() < usize::MAX,
        ensures
            final(self).wf(),
            final(self)@ == sorted_insert(old(self)@, (key, id)),
            final(self).shape() == tree_inserted(old(self).shape(), key, id),
            final(self).last_rotations() <= 2,
    {
        let ghost s0 = self@;
        proof {
            if s0.contains((key, id)) {
                let k = choose|k: int| 0 <= k < s0.len() && s0[k] == (key, id);
                assert(s0[k].1 == id);
            }
        }
        let rt = self.root.take();
        let ghost h = self.height@;
        let (mut n, k) = ins(rt, key, id, Ghost(h));
        let ghost n0 = *n;
        let ghost h1: nat = match n0.color {
            Color::Red => h + 1,
            Color::Black => h,
        };
        n.color = Color::Black;
        self.height = Ghost(h1);
        self.rotations = k;
        proof {
            assert(is_rb(Some(n), h1));
            lemma_seq_of_some(n);
            lemma_sorted_insert_sorted(s0, (key, id));
            lemma_upper_pos(s0, (key, id));
            lemma_insert_ids_distinct(s0, upper_pos(s0, (key, id)), (key, id));
        }
        self.root = Some(n);
        self.len = self.len + 1;
    }

    /// Remove the entry `(key, id)`; tells whether it was in the tree. The
    /// repair of the tree makes at most three rotations; a tree without the
    /// entry is left as it was.
    pub fn remove(&mut self, key: u64, id: usize) -> (r: bool)
        requires
            old(self).wf(),
        ensures
            final(self).wf(),
            r == old(self)@.contains((key, id)),
            r ==> final(self)@ == old(self)@.remove(pos_of(old(self)@, id)),
            r ==> final(self).shape() == tree_removed(old(self).shape(), key, id),
            r ==> final(self).last_rotations() <= 3,
            !r ==> *final(self) == *old(self),
    {
        if !contains_entry(&self.root, key, id) {
            return false;
        }
        let ghost s0 = self@;
        let ghost i = choose|i: int| 0 <= i < s0.len() && s0[i] == (key, id);
        proof {
            lemma_pos_of(s0, i);
            lemma_remove_keeps_order(s0, i);
        }
        let n = self.root.take().unwrap();
        proof {
            lemma_seq_of_some(n);
        }
        let ghost h = self.height@;
        let (rest, short, k) = del(n, key, id, Ghost(i), Ghost(h));
        let mut rest = rest;
        set_color(&mut rest, Color::Black);
        proof {
            if rest is Some {
                assert(rest->0 == rest->0);
            }
            reveal_with_fuel(is_rb, 1);
        }
        self.root = rest;
        self.len = self.len - 1;
        self.height = Ghost(if short {
            (h - 1) as nat
        } else {
            h
        });
        self.rotations = k;
        true
    }

    /// Remove and return the first entry. The repair of the tree makes at
    /// most three rotations; an empty tree is left as it was.
    pub fn pop_first(&mut self) -> (r: Option<Entry>)
        requires
            old(self).wf(),
        ensures
            final(self).wf(),
            old(self)@.len() == 0 ==> r is None && *final(self) == *old(self),
            old(self)@.len() > 0 ==> r == Some(old(self)@[0]) && final(self)@ == old(self)@.drop_first(),
            old(self)@.len() > 0 ==> final(self).shape() == tree_first_removed(old(self).shape()),
            old(self)@.len() > 0 ==> final(self).last_rotations() <= 3,
    {
        match self.root.take() {
            None => None,
            Some(n) => {
                let ghost s0 = seq_of(Some(n));
                proof {
                    lemma_seq_of_some(n);
                    lemma_remove_keeps_order(s0, 0);
                    assert(s0.remove(0) =~= s0.drop_first());
                }
                let ghost h = self.height@;
                let (e, rest, short, k) = del_min(n, Ghost(h));
                let mut rest = rest;
                set_color(&mut rest, Color::Black);
                self.root = rest;
                self.len = self.len - 1;
                self.height = Ghost(if short {
                    (h - 1) as nat
                } else {
                    h
                });
                self.rotations = k;
                Some(e)
            },
        }
    }

    /// Lower every key by `d`, saturating at zero, and keep the tree in
    /// order: the entries whose key reaches zero are taken out first and put
    /// back in at their places once the other keys are lowered.
    pub fn lower_keys(&mut self, d: u64)
        requires
            old(self).wf(),
        ensures
            final(self).wf(),
            final(self)@ == advanced(old(self)@, d),
    {
        let ghost s0 = self@;
        proof {
            self.lemma_wf();
        }
        let mut expired: Vec<usize> = Vec::new();
        let mut go = match self.first() {
            Some(e) => e.0 <= d,
            None => false,
        };
        let ghost mut k: int = 0;
        while go
            invariant
                self.wf(),
                sorted(s0),
                ids_distinct(s0),
                s0.len() <= usize::MAX,
                0 <= k <= s0.len(),
                self@ == s0.skip(k),
                expired@.len() == k,
                forall|j: int| 0 <= j < k ==> expired@[j] == (#[trigger] s0[j]).1 && s0[j].0 <= d,
                go == (k < s0.len() && s0[k].0 <= d),
            decreases s0.len() - k,
        {
            let e = self.pop_first().unwrap();
            expired.push(e.1);
            proof {
                assert(self@ =~= s0.skip(k + 1));
                k = k + 1;
            }
            go = match self.first() {
                Some(e) => e.0 <= d,
                None => false,
            };
        }
        let ghost p = k;
        let ghost base = lower_keys(s0.skip(p), d);
        let ghost items = lower_keys(s0.take(p), d);
        proof {
            lemma_expired_count(s0, d, p);
            lemma_advanced(s0, d);
            assert forall|i: int| 0 <= i < self@.len() implies (#[trigger] self@[i]).0 > d by {
                assert(self@[i] == s0[i + p]);
                if i > 0 {
                    assert(entry_lt(s0[p], s0[i + p]));
                }
            }
            lemma_lower_keys_keeps_order(self@, d);
        }
        let rt = self.root.take();
        self.root = lower(rt, d, Ghost(self.height@));
        proof {
            assert forall|i: int, j: int|
                0 <= i < items.len() && 0 <= j < items.len() && i != j implies #[trigger] items[i].1
                != #[trigger] items[j].1 by {
                assert(s0[i].1 != s0[j].1);
            }
            assert forall|m: int| 0 <= m < items.len() implies !has_id(base, (#[trigger] items[m]).1) by {
                if has_id(base, items[m].1) {
                    let q = choose|q: int| 0 <= q < base.len() && base[q].1 == items[m].1;
                    assert(s0[q + p].1 == s0[m].1);
                }
            }
            assert(insert_all(self@, items.skip(0)) == insert_all(base, items)) by {
                assert(items.skip(0) =~= items);
            }
        }
        let mut j: usize = 0;
        while j < expired.len()
            invariant
                self.wf(),
                0 <= j <= expired@.len(),
                expired@.len() == items.len(),
                items.len() == p,
                p <= s0.len(),
                s0.len() <= usize::MAX,
                self@.len() == s0.len() - p + j,
                forall|m: int| 0 <= m < p ==> (#[trigger] items[m]) == (0u64, expired@[m]),
                ids_distinct(items),
                forall|m: int| j <= m < p ==> !has_id(self@, (#[trigger] items[m]).1),
                insert_all(self@, items.skip(j as int)) == insert_all(base, items),
            decreases expired@.len() - j,
        {
            let id = expired[j];
            let ghost cur = self@;
            proof {
                assert(items[j as int] == (0u64, id));
            }
            self.insert(0, id);
            proof {
                lemma_upper_pos(cur, (0u64, id));
                lemma_insert_ids_distinct(cur, upper_pos(cur, (0u64, id)), (0u64, id));
                assert forall|m: int| j + 1 <= m < p implies !has_id(self@, (#[trigger] items[m]).1) by {
                    assert(items[m].1 != items[j as int].1);
                    assert(!has_id(cur, items[m].1));
                }
                let rest = items.skip(j as int);
                assert(rest[0] == (0u64, id));
                assert(rest.drop_first() =~= items.skip(j + 1));
            }
            j = j + 1;
        }
        proof {
            assert(items.skip(j as int) =~= Seq::<Entry>::empty());
        }
    }
}

impl Default for RBTree {
    /// An empty tree.
    fn default() -> (t: Self)
        ensures
            t.wf(),
            t@ == Seq::<Entry>::empty(),
    {
        RBTree::new()
    }
}

} // verus!
