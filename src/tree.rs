//! The binary search tree of records.
//!
//! A node's left subtree holds keys less than or equal to its own, its right
//! subtree keys strictly greater. Lookup and insertion both go left on equal
//! keys, and insertion and deletion keep that order, so every record held is
//! found by a lookup.
use vstd::prelude::*;
use vstd::multiset::Multiset;

verus! {

broadcast use {vstd::multiset::group_multiset_axioms, vstd::multiset::group_multiset_properties};

/// A record: an integer key (`age`) and a string label (`name`).
#[derive(Clone, Debug)]
pub struct Data {
    pub name: String,
    pub age: i32,
}

impl View for Data {
    type V = (int, Seq<char>);

    open spec fn view(&self) -> (int, Seq<char>) {
        (self.age as int, self.name@)
    }
}

/// The container: an unbalanced binary search tree of records, possibly
/// empty.
pub struct SortedContainer {
    root: Option<Box<Node>>,
}

/// One node of the tree: it owns its record and its two subtrees.
pub struct Node {
    pub left: Option<Box<Node>>,
    pub right: Option<Box<Node>>,
    pub data: Data,
}

/// The records held by a subtree, with their multiplicities.
pub open spec fn records(t: Option<Box<Node>>) -> Multiset<(int, Seq<char>)>
    decreases t,
{
    match t {
        None => Multiset::empty(),
        Some(n) => records(n.left).add(records(n.right)).insert(n.data@),
    }
}

/// Every key of the subtree lies in `(lo, hi]`, and each node splits its
/// subtree as the search order demands.
pub open spec fn bounded(t: Option<Box<Node>>, lo: int, hi: int) -> bool
    decreases t,
{
    match t {
        None => true,
        Some(n) => {
            &&& lo < n.data.age
            &&& n.data.age <= hi
            &&& bounded(n.left, lo, n.data.age as int)
            &&& bounded(n.right, n.data.age as int, hi)
        },
    }
}

/// The tree obeys the search order over the whole range of `i32` keys.
pub open spec fn ordered(t: Option<Box<Node>>) -> bool {
    bounded(t, i32::MIN as int - 1, i32::MAX as int)
}

/// The search walk: stop at a node holding `d`, else go left when `d`'s key
/// is at most the node's key and right otherwise.
pub open spec fn found(t: Option<Box<Node>>, d: (int, Seq<char>)) -> bool
    decreases t,
{
    match t {
        None => false,
        Some(n) => n.data@ == d || if d.0 <= n.data.age {
            found(n.left, d)
        } else {
            found(n.right, d)
        },
    }
}

/// The leftmost node of the subtree (the one that holds its smallest key)
/// has a key strictly below that of its parent, when it has one.
pub open spec fn leftmost_strict(t: Option<Box<Node>>) -> bool
    decreases t,
{
    match t {
        None => true,
        Some(n) => match n.left {
            None => true,
            Some(l) => (l.left.is_none() ==> l.data.age < n.data.age) && leftmost_strict(n.left),
        },
    }
}

/// The subtree after `d` is placed as a new leaf at the end of its search
/// path.
pub open spec fn inserted(t: Option<Box<Node>>, d: Data) -> Option<Box<Node>>
    decreases t,
{
    match t {
        None => Some(Box::new(Node { left: None, right: None, data: d })),
        Some(n) => if d.age <= n.data.age {
            Some(Box::new(Node { left: inserted(n.left, d), right: n.right, data: n.data }))
        } else {
            Some(Box::new(Node { left: n.left, right: inserted(n.right, d), data: n.data }))
        },
    }
}

/// The record of the leftmost node below `n`.
pub open spec fn min_data(n: Node) -> Data
    decreases n,
{
    match n.left {
        None => n.data,
        Some(l) => min_data(*l),
    }
}

/// The subtree rooted at `n` with its leftmost node replaced by that node's
/// right subtree.
pub open spec fn without_min(n: Node) -> Option<Box<Node>>
    decreases n,
{
    match n.left {
        None => n.right,
        Some(l) => Some(Box::new(Node { left: without_min(*l), right: n.right, data: n.data })),
    }
}

/// The subtree `t` with `sub` hung in the empty left slot of its leftmost
/// node (`sub` itself when `t` is empty).
pub open spec fn attach_min(t: Option<Box<Node>>, sub: Option<Box<Node>>) -> Option<Box<Node>>
    decreases t,
{
    match t {
        None => sub,
        Some(n) => Some(Box::new(Node { left: attach_min(n.left, sub), right: n.right, data: n.data })),
    }
}

/// The subtree rooted at `n` with `n` itself removed. A missing child lets
/// the other take its place. With two children, `n` takes the record of its
/// in-order successor, which leaves the right subtree; but when that
/// successor's key equals its parent's, copying it up would put an equal key
/// on the right, so the right subtree takes `n`'s place instead, with `n`'s
/// left subtree hung below its leftmost node.
pub open spec fn spliced(n: Node) -> Option<Box<Node>> {
    match (n.left, n.right) {
        (Some(_), Some(r)) => if leftmost_strict(n.right) {
            Some(Box::new(Node { left: n.left, right: without_min(*r), data: min_data(*r) }))
        } else {
            attach_min(n.right, n.left)
        },
        (Some(_), None) => n.left,
        (None, _) => n.right,
    }
}

/// The subtree with the first node on the search path of `d` that holds `d`
/// removed; the subtree itself when there is none.
pub open spec fn removed(t: Option<Box<Node>>, d: (int, Seq<char>)) -> Option<Box<Node>>
    decreases t,
{
    match t {
        None => None,
        Some(n) => if n.data@ == d {
            spliced(*n)
        } else if d.0 <= n.data.age {
            Some(Box::new(Node { left: removed(n.left, d), right: n.right, data: n.data }))
        } else {
            Some(Box::new(Node { left: n.left, right: removed(n.right, d), data: n.data }))
        },
    }
}

/// The decimal numeral of a digit.
pub open spec fn digit_text(d: nat) -> Seq<char> {
    if d == 0 { "0"@ }
    else if d == 1 { "1"@ }
    else if d == 2 { "2"@ }
    else if d == 3 { "3"@ }
    else if d == 4 { "4"@ }
    else if d == 5 { "5"@ }
    else if d == 6 { "6"@ }
    else if d == 7 { "7"@ }
    else if d == 8 { "8"@ }
    else { "9"@ }
}

/// The decimal numeral of a natural number, without leading zeros.
pub open spec fn digits_text(n: nat) -> Seq<char>
    decreases n,
{
    if n < 10 {
        digit_text(n)
    } else {
        digits_text(n / 10) + digit_text(n % 10)
    }
}

/// The decimal numeral of an integer, with a leading `-` when negative.
pub open spec fn decimal_text(i: int) -> Seq<char> {
    if i < 0 {
        "-"@ + digits_text((-i) as nat)
    } else {
        digits_text(i as nat)
    }
}

/// The pre-order rendering of a subtree: `null` when empty, else
/// `[{"<key>":"<label>"},<left>,<right>]`.
pub open spec fn tree_text(t: Option<Box<Node>>) -> Seq<char>
    decreases t,
{
    match t {
        None => "null"@,
        Some(n) => "[{\""@ + decimal_text(n.data.age as int) + "\":\""@ + n.data.name@ + "\"},"@
            + tree_text(n.left) + ","@ + tree_text(n.right) + "]"@,
    }
}

proof fn lemma_bounded_keys(t: Option<Box<Node>>, lo: int, hi: int, r: (int, Seq<char>))
    requires
        bounded(t, lo, hi),
        records(t).count(r) > 0,
    ensures
        lo < r.0 <= hi,
    decreases t,
{
    if let Some(n) = t {
        if records(n.left).count(r) > 0 {
            lemma_bounded_keys(n.left, lo, n.data.age as int, r);
        } else if records(n.right).count(r) > 0 {
            lemma_bounded_keys(n.right, n.data.age as int, hi, r);
        }
    }
}

proof fn lemma_found_held(t: Option<Box<Node>>, d: (int, Seq<char>))
    requires
        found(t, d),
    ensures
        records(t).count(d) > 0,
    decreases t,
{
    if let Some(n) = t {
        if n.data@ != d {
            if d.0 <= n.data.age {
                lemma_found_held(n.left, d);
            } else {
                lemma_found_held(n.right, d);
            }
        }
    }
}

proof fn lemma_bounded_widen(t: Option<Box<Node>>, lo: int, hi: int, lo2: int, hi2: int)
    requires
        bounded(t, lo, hi),
        lo2 <= lo,
        hi <= hi2,
    ensures
        bounded(t, lo2, hi2),
    decreases t,
{
    if let Some(n) = t {
        lemma_bounded_widen(n.left, lo, n.data.age as int, lo2, n.data.age as int);
        lemma_bounded_widen(n.right, n.data.age as int, hi, n.data.age as int, hi2);
    }
}

/// In an ordered subtree the search walk finds exactly the records it holds.
proof fn lemma_found_iff_held(t: Option<Box<Node>>, lo: int, hi: int, d: (int, Seq<char>))
    requires
        bounded(t, lo, hi),
    ensures
        found(t, d) <==> records(t).count(d) > 0,
    decreases t,
{
    if let Some(n) = t {
        if records(n.left).count(d) > 0 {
            lemma_bounded_keys(n.left, lo, n.data.age as int, d);
        }
        if records(n.right).count(d) > 0 {
            lemma_bounded_keys(n.right, n.data.age as int, hi, d);
        }
        lemma_found_iff_held(n.left, lo, n.data.age as int, d);
        lemma_found_iff_held(n.right, n.data.age as int, hi, d);
    }
}

proof fn lemma_inserted(t: Option<Box<Node>>, d: Data, lo: int, hi: int)
    ensures
        records(inserted(t, d)) =~= records(t).insert(d@),
        found(inserted(t, d), d@),
        bounded(t, lo, hi) && lo < d.age <= hi ==> bounded(inserted(t, d), lo, hi),
    decreases t,
{
    match t {
        None => {
            let leaf = inserted(t, d).unwrap();
            assert(bounded(leaf.left, lo, d.age as int));
            assert(bounded(leaf.right, d.age as int, hi));
        },
        Some(n) => {
            lemma_inserted(n.left, d, lo, n.data.age as int);
            lemma_inserted(n.right, d, n.data.age as int, hi);
        },
    }
}

proof fn lemma_without_min(t: Option<Box<Node>>, lo: int, hi: int)
    requires
        t.is_some(),
    ensures
        records(t) =~= records(without_min(*t.unwrap())).insert(min_data(*t.unwrap())@),
        t.unwrap().left.is_some() ==> without_min(*t.unwrap()).is_some()
            && without_min(*t.unwrap()).unwrap().data == t.unwrap().data,
        bounded(t, lo, hi) ==> lo < min_data(*t.unwrap()).age <= hi && bounded(
            without_min(*t.unwrap()),
            lo,
            hi,
        ),
        bounded(t, lo, hi) && leftmost_strict(t) ==> bounded(
            without_min(*t.unwrap()),
            min_data(*t.unwrap()).age as int,
            hi,
        ),
    decreases t,
{
    let n = *t.unwrap();
    let key = n.data.age as int;
    match n.left {
        None => {
            assert(records(None).add(records(n.right)) =~= records(n.right));
            if bounded(t, lo, hi) {
                lemma_bounded_widen(n.right, key, hi, lo, hi);
            }
        },
        Some(l) => {
            lemma_without_min(n.left, lo, key);
            let m = min_data(*l);
            let rest = without_min(*l);
            if bounded(t, lo, hi) {
                lemma_bounded_widen(n.right, key, hi, m.age as int, hi);
                if leftmost_strict(t) {
                    if l.left.is_some() {
                        assert(rest.unwrap().data == l.data);
                        assert(m.age < l.data.age);
                    }
                    assert(m.age < key);
                }
            }
        },
    }
}

proof fn lemma_attach_min(t: Option<Box<Node>>, sub: Option<Box<Node>>, lo: int, k: int, hi: int)
    ensures
        records(attach_min(t, sub)) =~= records(t).add(records(sub)),
        bounded(t, k, hi) && bounded(sub, lo, k) && lo <= k <= hi ==> bounded(
            attach_min(t, sub),
            lo,
            hi,
        ),
    decreases t,
{
    match t {
        None => {
            assert(records(None).add(records(sub)) =~= records(sub));
            if bounded(sub, lo, k) && k <= hi {
                lemma_bounded_widen(sub, lo, k, lo, hi);
            }
        },
        Some(n) => {
            lemma_attach_min(n.left, sub, lo, k, n.data.age as int);
        },
    }
}

proof fn lemma_spliced(t: Option<Box<Node>>, lo: int, hi: int)
    requires
        t.is_some(),
    ensures
        records(t) =~= records(spliced(*t.unwrap())).insert(t.unwrap().data@),
        bounded(t, lo, hi) ==> bounded(spliced(*t.unwrap()), lo, hi),
{
    let n = *t.unwrap();
    let key = n.data.age as int;
    match (n.left, n.right) {
        (Some(l), Some(r)) => if !leftmost_strict(n.right) {
            lemma_attach_min(n.right, n.left, lo, key, hi);
            assert(records(n.right).add(records(n.left)) =~= records(n.left).add(records(n.right)));
        } else {
            lemma_without_min(n.right, key, hi);
            let m = min_data(*r);
            if bounded(t, lo, hi) {
                lemma_bounded_widen(n.left, lo, key, lo, m.age as int);
            }
            assert(records(n.left).add(records(without_min(*r)).insert(m@)) =~= records(n.left).add(
                records(without_min(*r)),
            ).insert(m@));
        }
        (Some(l), None) => {
            assert(records(n.left).add(records(None)) =~= records(n.left));
            if bounded(t, lo, hi) {
                lemma_bounded_widen(n.left, lo, key, lo, hi);
            }
        },
        (None, _) => {
            assert(records(None).add(records(n.right)) =~= records(n.right));
            if bounded(t, lo, hi) {
                lemma_bounded_widen(n.right, key, hi, lo, hi);
            }
        },
    }
}

proof fn lemma_removed(t: Option<Box<Node>>, d: (int, Seq<char>), lo: int, hi: int)
    ensures
        !found(t, d) ==> removed(t, d) == t,
        found(t, d) ==> records(removed(t, d)) =~= records(t).remove(d),
        bounded(t, lo, hi) ==> bounded(removed(t, d), lo, hi),
    decreases t,
{
    if let Some(n) = t {
        let key = n.data.age as int;
        if n.data@ == d {
            lemma_spliced(t, lo, hi);
        } else if d.0 <= key {
            lemma_removed(n.left, d, lo, key);
            if found(n.left, d) {
                lemma_found_held(n.left, d);
                assert(records(removed(n.left, d)).add(records(n.right)).insert(n.data@) =~= records(
                    n.left,
                ).add(records(n.right)).insert(n.data@).remove(d));
            }
        } else {
            lemma_removed(n.right, d, key, hi);
            if found(n.right, d) {
                lemma_found_held(n.right, d);
                assert(records(n.left).add(records(removed(n.right, d))).insert(n.data@) =~= records(
                    n.left,
                ).add(records(n.right)).insert(n.data@).remove(d));
            }
        }
    }
}

impl Node {
    fn new(data: Data) -> (n: Node)
        ensures
            n.left.is_none(),
            n.right.is_none(),
            n.data == data,
    {
        Node { left: None, right: None, data }
    }

    /// Walks the search path for `data` from the subtree `t`.
    fn contains(t: &Option<Box<Node>>, data: &Data) -> (r: bool)
        ensures
            r == found(*t, data@),
        decreases *t,
    {
        match t {
            None => false,
            Some(n) => {
                if n.data.age == data.age && n.data.name == data.name {
                    true
                } else if data.age <= n.data.age {
                    Node::contains(&n.left, data)
                } else {
                    Node::contains(&n.right, data)
                }
            },
        }
    }

    /// Places `data` as a new leaf at the end of its search path.
    fn insert(slot: &mut Option<Box<Node>>, data: Data)
        ensures
            *final(slot) == inserted(*old(slot), data),
        decreases *old(slot),
    {
        match slot.take() {
            None => {
                *slot = Some(Box::new(Node::new(data)));
            },
            Some(mut n) => {
                if data.age <= n.data.age {
                    Node::insert(&mut n.left, data);
                } else {
                    Node::insert(&mut n.right, data);
                }
                *slot = Some(n);
            },
        }
    }

    /// Detaches the leftmost node of a non-empty subtree (the first in
    /// order) and returns its record.
    fn get_min_child(slot: &mut Option<Box<Node>>) -> (m: Data)
        requires
            old(slot).is_some(),
        ensures
            m == min_data(*old(slot).unwrap()),
            *final(slot) == without_min(*old(slot).unwrap()),
        decreases *old(slot),
    {
        let n = slot.take().unwrap();
        let Node { left, right, data } = *n;
        match left {
            None => {
                *slot = right;
                data
            },
            Some(l) => {
                let mut rest = Some(l);
                let m = Node::get_min_child(&mut rest);
                *slot = Some(Box::new(Node { left: rest, right, data }));
                m
            },
        }
    }

    /// Whether the leftmost node of the subtree has a key strictly below
    /// that of its parent (see `leftmost_strict`).
    fn leftmost_is_strict(t: &Option<Box<Node>>) -> (r: bool)
        ensures
            r == leftmost_strict(*t),
        decreases *t,
    {
        match t {
            None => true,
            Some(n) => match &n.left {
                None => true,
                Some(l) => (l.left.is_some() || l.data.age < n.data.age) && Node::leftmost_is_strict(
                    &n.left,
                ),
            },
        }
    }

    /// Hangs `sub` in the empty left slot of the leftmost node of the subtree.
    fn hang_below_min(slot: &mut Option<Box<Node>>, sub: Option<Box<Node>>)
        ensures
            *final(slot) == attach_min(*old(slot), sub),
        decreases *old(slot),
    {
        match slot.take() {
            None => {
                *slot = sub;
            },
            Some(mut n) => {
                Node::hang_below_min(&mut n.left, sub);
                *slot = Some(n);
            },
        }
    }

    /// Removes the node at the top of a subtree and returns its record; an
    /// empty subtree stays empty and gives `None`. A node with two children
    /// takes over the record of its in-order successor, which is detached from
    /// the right subtree, unless that successor's key equals its parent's: then
    /// the right subtree moves up, with the left subtree hung below its
    /// leftmost node.
    fn delete(slot: &mut Option<Box<Node>>) -> (removed: Option<Data>)
        ensures
            old(slot).is_none() ==> removed.is_none() && final(slot).is_none(),
            old(slot).is_some() ==> removed == Some(old(slot).unwrap().data) && *final(slot)
                == spliced(*old(slot).unwrap()),
    {
        match slot.take() {
            None => None,
            Some(n) => {
                let Node { left, right, data } = *n;
                match (left, right) {
                    (Some(l), Some(r)) => {
                        let mut rest = Some(r);
                        if Node::leftmost_is_strict(&rest) {
                            let m = Node::get_min_child(&mut rest);
                            *slot = Some(Box::new(Node { left: Some(l), right: rest, data: m }));
                        } else {
                            Node::hang_below_min(&mut rest, Some(l));
                            *slot = rest;
                        }
                    },
                    (Some(l), None) => {
                        *slot = Some(l);
                    },
                    (None, r) => {
                        *slot = r;
                    },
                }
                Some(data)
            },
        }
    }

    /// Finds the first node on the search path of `data` that holds it and
    /// removes it; leaves the subtree as it is when there is none.
    fn find_by_data(slot: &mut Option<Box<Node>>, data: &Data)
        ensures
            *final(slot) == removed(*old(slot), data@),
        decreases *old(slot),
    {
        match slot.take() {
            None => {},
            Some(mut n) => {
                if n.data.age == data.age && n.data.name == data.name {
                    *slot = Some(n);
                    Node::delete(slot);
                } else if data.age <= n.data.age {
                    Node::find_by_data(&mut n.left, data);
                    *slot = Some(n);
                } else {
                    Node::find_by_data(&mut n.right, data);
                    *slot = Some(n);
                }
            },
        }
    }

    /// Appends the decimal numeral of a natural number.
    fn push_digits(n: u32, out: &mut String)
        ensures
            final(out)@ == old(out)@ + digits_text(n as nat),
        decreases n,
    {
        if n >= 10 {
            Node::push_digits(n / 10, out);
        }
        let d = n % 10;
        let text = if d == 0 { "0" }
            else if d == 1 { "1" }
            else if d == 2 { "2" }
            else if d == 3 { "3" }
            else if d == 4 { "4" }
            else if d == 5 { "5" }
            else if d == 6 { "6" }
            else if d == 7 { "7" }
            else if d == 8 { "8" }
            else { "9" };
        out.append(text);
        proof {
            if n >= 10 {
                assert(digits_text(n as nat) == digits_text((n / 10) as nat) + digit_text((n % 10) as nat));
            }
        }
        assert(final(out)@ =~= old(out)@ + digits_text(n as nat));
    }

    /// Appends the decimal numeral of an integer.
    fn push_decimal(i: i32, out: &mut String)
        ensures
            final(out)@ == old(out)@ + decimal_text(i as int),
    {
        if i < 0 {
            out.append("-");
            let magnitude = (-(i as i64)) as u32;
            Node::push_digits(magnitude, out);
            assert(out@ =~= old(out)@ + decimal_text(i as int));
        } else {
            Node::push_digits(i as u32, out);
        }
    }

    /// Appends the rendering of the subtree `t`.
    fn fmt(t: &Option<Box<Node>>, out: &mut String)
        ensures
            final(out)@ == old(out)@ + tree_text(*t),
        decreases *t,
    {
        match t {
            None => {
                out.append("null");
            },
            Some(n) => {
                out.append("[{\"");
                Node::push_decimal(n.data.age, out);
                out.append("\":\"");
                out.append(n.data.name.as_str());
                out.append("\"},");
                Node::fmt(&n.left, out);
                out.append(",");
                Node::fmt(&n.right, out);
                out.append("]");
                assert(out@ =~= old(out)@ + tree_text(*t));
            },
        }
    }
}

impl View for SortedContainer {
    type V = Multiset<(int, Seq<char>)>;

    /// The records held, each as often as it was inserted and not deleted.
    open spec fn view(&self) -> Multiset<(int, Seq<char>)> {
        records(self.tree())
    }
}

impl SortedContainer {
    /// The nodes of the tree: `None` when it is empty, else its root.
    pub closed spec fn tree(&self) -> Option<Box<Node>> {
        self.root
    }

    /// The tree obeys the search order: every node's left subtree holds keys
    /// at most its own, its right subtree keys above it.
    pub open spec fn is_ordered(&self) -> bool {
        ordered(self.tree())
    }

    /// The search walk for `d` (left on a key at most the node's, right
    /// otherwise) meets a node that holds `d`.
    pub open spec fn reaches(&self, d: (int, Seq<char>)) -> bool {
        found(self.tree(), d)
    }

    /// The rendering of the tree: `null` when empty; else, in pre-order,
    /// `[{"<key>":"<label>"},<left>,<right>]` for each node, with `null` for
    /// an absent child.
    pub open spec fn text(&self) -> Seq<char> {
        tree_text(self.tree())
    }

    /// An empty tree.
    pub fn new() -> (t: SortedContainer)
        ensures
            t.tree().is_none(),
            t@ == Multiset::<(int, Seq<char>)>::empty(),
            t.is_ordered(),
            t.text() == "null"@,
    {
        SortedContainer { root: None }
    }

    /// Inserts a record as a new leaf; duplicates are kept as distinct nodes.
    pub fn insert_node(&mut self, data: Data)
        ensures
            final(self).tree() == inserted(old(self).tree(), data),
            final(self)@ == old(self)@.insert(data@),
            final(self).reaches(data@),
            old(self).is_ordered() ==> final(self).is_ordered(),
    {
        proof {
            lemma_inserted(self.root, data, i32::MIN as int - 1, i32::MAX as int);
        }
        Node::insert(&mut self.root, data);
    }

    /// Whether the search walk for `data` meets a node holding it, by key
    /// and label; in an ordered tree, whether the tree holds `data`.
    pub fn contains(&self, data: &Data) -> (r: bool)
        ensures
            r == self.reaches(data@),
            r ==> self@.count(data@) > 0,
            self.is_ordered() ==> (r <==> self@.count(data@) > 0),
    {
        proof {
            if found(self.root, data@) {
                lemma_found_held(self.root, data@);
            }
            if self.is_ordered() {
                lemma_found_iff_held(self.root, i32::MIN as int - 1, i32::MAX as int, data@);
            }
        }
        Node::contains(&self.root, data)
    }

    /// Discards every record.
    pub fn reset(&mut self)
        ensures
            final(self).tree().is_none(),
            final(self)@ == Multiset::<(int, Seq<char>)>::empty(),
            final(self).is_ordered(),
            final(self).text() == "null"@,
            forall|d: (int, Seq<char>)| !#[trigger] final(self).reaches(d),
    {
        self.root = None;
    }

    /// Deletes one record equal to `data` by key and label; does nothing
    /// when the search walk meets none.
    pub fn delete(&mut self, data: &Data)
        ensures
            final(self).tree() == removed(old(self).tree(), data@),
            !old(self).reaches(data@) ==> *final(self) == *old(self),
            old(self).reaches(data@) ==> final(self)@ == old(self)@.remove(data@),
            old(self).is_ordered() ==> final(self).is_ordered(),
    {
        proof {
            lemma_removed(self.root, data@, i32::MIN as int - 1, i32::MAX as int);
        }
        Node::find_by_data(&mut self.root, data);
    }

    /// Renders the tree as text (see `text`).
    pub fn serialize(&self) -> (s: String)
        ensures
            s@ == self.text(),
    {
        let mut out = String::new();
        Node::fmt(&self.root, &mut out);
        assert(out@ =~= self.text());
        out
    }
}

/// Deleting a record that the search walk does not reach changes nothing:
/// the tree, and so its rendering, stay as they were.
pub proof fn lemma_delete_absent_keeps_text(t: SortedContainer, d: (int, Seq<char>))
    requires
        !t.reaches(d),
    ensures
        removed(t.tree(), d) == t.tree(),
        tree_text(removed(t.tree(), d)) == t.text(),
{
    lemma_removed(t.tree(), d, i32::MIN as int - 1, i32::MAX as int);
}

/// In an ordered tree that holds `d` exactly once, deleting `d` leaves an
/// ordered tree that neither holds nor reaches it and still reaches every
/// other record held.
pub proof fn lemma_delete_present_once(t: SortedContainer, d: (int, Seq<char>))
    requires
        t.is_ordered(),
        t@.count(d) == 1,
    ensures
        records(removed(t.tree(), d)) == t@.remove(d),
        records(removed(t.tree(), d)).count(d) == 0,
        !found(removed(t.tree(), d), d),
        ordered(removed(t.tree(), d)),
        forall|e: (int, Seq<char>)|
            e != d && t@.count(e) > 0 ==> #[trigger] found(removed(t.tree(), d), e),
{
    let lo = i32::MIN as int - 1;
    let hi = i32::MAX as int;
    lemma_found_iff_held(t.tree(), lo, hi, d);
    lemma_removed(t.tree(), d, lo, hi);
    let rest = removed(t.tree(), d);
    if found(rest, d) {
        lemma_found_held(rest, d);
    }
    assert forall|e: (int, Seq<char>)| e != d && t@.count(e) > 0 implies #[trigger] found(
        removed(t.tree(), d),
        e,
    ) by {
        lemma_found_iff_held(rest, lo, hi, e);
    }
}

/// Deleting a record held at most once, twice in a row, is the same as
/// deleting it once: the second deletion changes nothing.
pub proof fn lemma_delete_twice(t: SortedContainer, d: (int, Seq<char>))
    requires
        t@.count(d) <= 1,
    ensures
        removed(removed(t.tree(), d), d) == removed(t.tree(), d),
{
    let lo = i32::MIN as int - 1;
    let hi = i32::MAX as int;
    lemma_removed(t.tree(), d, lo, hi);
    let rest = removed(t.tree(), d);
    lemma_removed(rest, d, lo, hi);
    if found(t.tree(), d) {
        lemma_found_held(t.tree(), d);
    }
    if found(rest, d) {
        lemma_found_held(rest, d);
    }
}

} // verus!
