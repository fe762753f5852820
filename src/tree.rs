//! The code tree: nodes, paths to leaves, insertion of a weighted symbol, and the
//! preorder serialization with its parser.

use vstd::prelude::*;

use crate::bitvec::{BitIterator, BitVec, BitView};
use crate::symbol::BinaryCodable;

verus! {

/// A node of the code tree.
#[derive(Debug)]
pub enum Node<U> {
    Parent { count: usize, left: Box<Node<U>>, right: Box<Node<U>> },
    Leaf { count: usize, value: U },
}

impl<U> Node<U> {
    /// The weight stored in the node.
    pub open spec fn weight(self) -> usize {
        match self {
            Node::Parent { count, .. } => count,
            Node::Leaf { count, .. } => count,
        }
    }

    /// Every parent's weight is the sum of its children's.
    pub open spec fn counts_consistent(self) -> bool
        decreases self,
    {
        match self {
            Node::Parent { count, left, right } => {
                &&& count == left.weight() + right.weight()
                &&& left.counts_consistent()
                &&& right.counts_consistent()
            },
            Node::Leaf { .. } => true,
        }
    }

    /// Some leaf of the subtree holds `v`.
    pub open spec fn holds(self, v: U) -> bool
        decreases self,
    {
        match self {
            Node::Parent { left, right, .. } => left.holds(v) || right.holds(v),
            Node::Leaf { value, .. } => value == v,
        }
    }

    /// No value is held by two leaves.
    pub open spec fn unique_leaves(self) -> bool
        decreases self,
    {
        match self {
            Node::Parent { left, right, .. } => {
                &&& left.unique_leaves()
                &&& right.unique_leaves()
                &&& forall|v: U| !(#[trigger] left.holds(v) && right.holds(v))
            },
            Node::Leaf { .. } => true,
        }
    }

    pub open spec fn leaf_count(self) -> nat
        decreases self,
    {
        match self {
            Node::Parent { left, right, .. } => left.leaf_count() + right.leaf_count(),
            Node::Leaf { .. } => 1,
        }
    }

    pub open spec fn parent_count(self) -> nat
        decreases self,
    {
        match self {
            Node::Parent { left, right, .. } => 1 + left.parent_count() + right.parent_count(),
            Node::Leaf { .. } => 0,
        }
    }

    /// The weight of the leftmost leaf that holds `v`.
    pub open spec fn leaf_weight(self, v: U) -> usize
        decreases self,
    {
        match self {
            Node::Parent { left, right, .. } => if left.holds(v) {
                left.leaf_weight(v)
            } else {
                right.leaf_weight(v)
            },
            Node::Leaf { count, .. } => count,
        }
    }

    /// The number of edges on the longest path from the node down to a leaf.
    pub open spec fn height(self) -> nat
        decreases self,
    {
        match self {
            Node::Parent { left, right, .. } => 1 + if left.height() >= right.height() {
                left.height()
            } else {
                right.height()
            },
            Node::Leaf { .. } => 0,
        }
    }

    /// The tree after `insert(freq, v)`: a leaf becomes a parent of the old leaf (left)
    /// and a new leaf (right); a parent passes the value on to its lighter child, the
    /// right one on a tie.
    pub open spec fn inserted(self, freq: usize, v: U) -> Node<U>
        decreases self,
    {
        match self {
            Node::Parent { count, left, right } => {
                if right.weight() > left.weight() {
                    Node::Parent {
                        count: (count + freq) as usize,
                        left: Box::new(left.inserted(freq, v)),
                        right,
                    }
                } else {
                    Node::Parent {
                        count: (count + freq) as usize,
                        left,
                        right: Box::new(right.inserted(freq, v)),
                    }
                }
            },
            Node::Leaf { count, value } => Node::Parent {
                count: (count + freq) as usize,
                left: Box::new(Node::Leaf { count, value }),
                right: Box::new(Node::Leaf { count: freq, value: v }),
            },
        }
    }

    /// The path from the node to the leftmost leaf that holds `target`: `false` for a
    /// step to the left child, `true` for a step to the right one.
    pub open spec fn path(self, target: U) -> Option<Seq<bool>>
        decreases self,
    {
        match self {
            Node::Parent { left, right, .. } => match left.path(target) {
                Some(p) => Some(seq![false] + p),
                None => match right.path(target) {
                    Some(p) => Some(seq![true] + p),
                    None => None,
                },
            },
            Node::Leaf { value, .. } => if value == target {
                Some(Seq::empty())
            } else {
                None
            },
        }
    }
}

/// Trees are equal when they have the same shape and the same symbols in the same
/// leaves; weights are not compared.
impl<U: BinaryCodable> PartialEq for Node<U> {
    fn eq(&self, other: &Self) -> (r: bool)
        decreases self,
    {
        proof {
            lemma_shape_eq(*self, *other);
        }
        match (self, other) {
            (
                Node::Parent { left: l_left, right: l_right, .. },
                Node::Parent { left: r_left, right: r_right, .. },
            ) => {
                let l = (**l_left).eq(&**r_left);
                l && (**l_right).eq(&**r_right)
            },
            (Node::Leaf { value: l_value, .. }, Node::Leaf { value: r_value, .. }) => l_value.same(
                r_value,
            ),
            _ => false,
        }
    }
}

impl<U: BinaryCodable> vstd::std_specs::cmp::PartialEqSpecImpl for Node<U> {
    open spec fn obeys_eq_spec() -> bool {
        true
    }

    open spec fn eq_spec(&self, other: &Node<U>) -> bool {
        self.shape() == other.shape()
    }
}

/// Two trees have the same shape when their roots are alike and their children have
/// the same shapes.
proof fn lemma_shape_eq<U>(a: Node<U>, b: Node<U>)
    ensures
        (a.shape() == b.shape()) == match (a, b) {
            (Node::Parent { left: al, right: ar, .. }, Node::Parent { left: bl, right: br, .. }) => {
                al.shape() == bl.shape() && ar.shape() == br.shape()
            },
            (Node::Leaf { value: av, .. }, Node::Leaf { value: bv, .. }) => av == bv,
            _ => false,
        },
{
}

/// Why a byte string does not start with a serialized code tree.
#[derive(Debug, Clone, Copy, PartialEq, Eq, Structural)]
pub enum NodeDeserializationError {
    /// The input ends where a node's type tag should stand.
    MissingNodeTypeSpecifier,
    /// A type tag is neither 0 (leaf) nor 1 (parent).
    InvalidNodeTypeSpecifier(u8),
    /// Fewer bytes are left than a leaf's symbol takes.
    MissingNodeUnitData,
    /// A leaf's bytes are the form of no symbol.
    InvalidNodeUnitData,
}

/// Type tag of a leaf in the serialized tree.
pub const LEAF_TAG: u8 = 0;

/// Type tag of a parent in the serialized tree.
pub const PARENT_TAG: u8 = 1;

impl<U: BinaryCodable> Node<U> {
    /// Preorder serialization: a tag byte per node; a leaf's tag is followed by its
    /// symbol's fixed-size form, a parent's by its left then its right subtree.
    pub open spec fn serialized(self) -> Seq<u8>
        decreases self,
    {
        match self {
            Node::Parent { left, right, .. } => seq![PARENT_TAG] + left.serialized()
                + right.serialized(),
            Node::Leaf { value, .. } => seq![LEAF_TAG] + value.fixed_bytes(),
        }
    }
}

impl<U> Node<U> {
    /// The same tree with every weight set to zero: what a parse can recover.
    pub open spec fn shape(self) -> Node<U>
        decreases self,
    {
        match self {
            Node::Parent { left, right, .. } => Node::Parent {
                count: 0,
                left: Box::new(left.shape()),
                right: Box::new(right.shape()),
            },
            Node::Leaf { value, .. } => Node::Leaf { count: 0, value },
        }
    }
}

/// The tree serialized at the start of `b`, with the number of bytes it takes.
pub open spec fn parse_node<U: BinaryCodable>(b: Seq<u8>) -> Result<
    (Node<U>, nat),
    NodeDeserializationError,
>
    decreases b.len(),
{
    if b.len() == 0 {
        Err(NodeDeserializationError::MissingNodeTypeSpecifier)
    } else if b[0] == LEAF_TAG {
        if b.len() < 1 + U::width() {
            Err(NodeDeserializationError::MissingNodeUnitData)
        } else if exists|v: U| #[trigger] v.fixed_bytes() == b.subrange(1, 1 + U::width() as int) {
            let v = choose|v: U| #[trigger] v.fixed_bytes() == b.subrange(1, 1 + U::width() as int);
            Ok((Node::Leaf { count: 0, value: v }, 1 + U::width()))
        } else {
            Err(NodeDeserializationError::InvalidNodeUnitData)
        }
    } else if b[0] == PARENT_TAG {
        match parse_node::<U>(b.skip(1)) {
            Err(e) => Err(e),
            Ok((left, n1)) => if 1 + n1 <= b.len() {
                match parse_node::<U>(b.skip(1 + n1 as int)) {
                    Err(e) => Err(e),
                    Ok((right, n2)) => Ok(
                        (
                            Node::Parent { count: 0, left: Box::new(left), right: Box::new(right) },
                            1 + n1 + n2,
                        ),
                    ),
                }
            } else {
                Err(NodeDeserializationError::MissingNodeTypeSpecifier)
            },
        }
    } else {
        Err(NodeDeserializationError::InvalidNodeTypeSpecifier(b[0]))
    }
}

/// A parse never takes more bytes than there are.
pub proof fn lemma_parse_len<U: BinaryCodable>(b: Seq<u8>)
    ensures
        parse_node::<U>(b) is Ok ==> parse_node::<U>(b)->Ok_0.1 <= b.len(),
    decreases b.len(),
{
    if b.len() > 0 && b[0] == PARENT_TAG {
        lemma_parse_len::<U>(b.skip(1));
        if let Ok((_, n1)) = parse_node::<U>(b.skip(1)) {
            lemma_parse_len::<U>(b.skip(1 + n1 as int));
        }
    }
}

/// Parsing what `serialized` wrote, whatever follows it, gives back the tree's shape
/// and the length of its serialization.
pub proof fn lemma_parse_serialized<U: BinaryCodable>(t: Node<U>, rest: Seq<u8>)
    ensures
        parse_node::<U>(t.serialized() + rest) == Ok::<(Node<U>, nat), NodeDeserializationError>(
            (t.shape(), t.serialized().len()),
        ),
    decreases t,
{
    let b = t.serialized() + rest;
    match t {
        Node::Parent { left, right, .. } => {
            let sl = left.serialized();
            let sr = right.serialized();
            assert(b.skip(1) =~= sl + (sr + rest));
            lemma_parse_serialized(*left, sr + rest);
            assert(b.skip(1 + sl.len() as int) =~= sr + rest);
            lemma_parse_serialized(*right, rest);
        },
        Node::Leaf { value, .. } => {
            U::lemma_fixed_bytes(value, value);
            let w = U::width();
            assert(b.subrange(1, 1 + w as int) =~= value.fixed_bytes());
            let v = choose|v: U| #[trigger] v.fixed_bytes() == b.subrange(1, 1 + w as int);
            U::lemma_fixed_bytes(v, value);
        },
    }
}

/// Why a bit sequence is not a code sequence of a tree.
#[derive(Debug, Clone, Copy, PartialEq, Eq, Structural)]
pub enum DecodingError {
    InvalidEncoding,
}


/// Weights play no part in paths.
pub proof fn lemma_shape<U>(t: Node<U>)
    ensures
        forall|v: U| #[trigger] t.shape().path(v) == t.path(v),
        forall|v: U| #[trigger] t.shape().holds(v) == t.holds(v),
        t.shape() is Parent <==> t is Parent,
    decreases t,
{
    if let Node::Parent { left, right, .. } = t {
        lemma_shape(*left);
        lemma_shape(*right);
        assert forall|v: U| #[trigger] t.shape().path(v) == t.path(v) by {
            assert(left.shape().path(v) == left.path(v));
            assert(right.shape().path(v) == right.path(v));
        }
        assert forall|v: U| #[trigger] t.shape().holds(v) == t.holds(v) by {
            assert(left.shape().holds(v) == left.holds(v));
            assert(right.shape().holds(v) == right.holds(v));
        }
    } else {
        assert forall|v: U| #[trigger] t.shape().path(v) == t.path(v) by {}
        assert forall|v: U| #[trigger] t.shape().holds(v) == t.holds(v) by {}
    }
}


/// A successful parse consumed the serialization of the tree it returns.
pub proof fn lemma_parse_reserialize<U: BinaryCodable>(b: Seq<u8>)
    ensures
        parse_node::<U>(b) matches Ok((t, n)) ==> n <= b.len() && t.serialized() == b.take(
            n as int,
        ),
    decreases b.len(),
{
    if b.len() > 0 {
        if b[0] == LEAF_TAG {
            if b.len() >= 1 + U::width() && exists|v: U| #[trigger] v.fixed_bytes() == b.subrange(
                1,
                1 + U::width() as int,
            ) {
                let v = choose|v: U| #[trigger] v.fixed_bytes() == b.subrange(1, 1 + U::width() as int);
                assert(b.take(1 + U::width() as int) =~= seq![LEAF_TAG] + v.fixed_bytes());
            }
        } else if b[0] == PARENT_TAG {
            lemma_parse_reserialize::<U>(b.skip(1));
            if let Ok((l, n1)) = parse_node::<U>(b.skip(1)) {
                lemma_parse_reserialize::<U>(b.skip(1 + n1 as int));
                if let Ok((r, n2)) = parse_node::<U>(b.skip(1 + n1 as int)) {
                    assert(b.take((1 + n1 + n2) as int) =~= seq![PARENT_TAG] + l.serialized()
                        + r.serialized());
                }
            }
        }
    }
}

/// No proper prefix of a serialized tree parses.
pub proof fn lemma_parse_truncated<U: BinaryCodable>(t: Node<U>, k: int)
    requires
        0 <= k < t.serialized().len(),
    ensures
        parse_node::<U>(t.serialized().take(k)) is Err,
{
    let b = t.serialized();
    let c = b.take(k);
    lemma_parse_reserialize::<U>(c);
    if let Ok((t2, n)) = parse_node::<U>(c) {
        assert(b =~= t2.serialized() + b.skip(n as int));
        lemma_parse_serialized(t2, b.skip(n as int));
        lemma_parse_serialized(t, Seq::empty());
        assert(b + Seq::<u8>::empty() =~= b);
    }
}


/// The symbol whose code, read from `node`, is exactly `bits`.
pub open spec fn decode_code<U>(node: Node<U>, bits: Seq<bool>) -> Result<U, DecodingError>
    decreases bits.len(),
{
    match node {
        Node::Parent { left, right, .. } => if bits.len() == 0 {
            Err(DecodingError::InvalidEncoding)
        } else if bits[0] {
            decode_code(*right, bits.drop_first())
        } else {
            decode_code(*left, bits.drop_first())
        },
        Node::Leaf { value, .. } => if bits.len() == 0 {
            Ok(value)
        } else {
            Err(DecodingError::InvalidEncoding)
        },
    }
}

/// The symbol coded by `bits` in the tree `tree`, if there is a tree.
pub open spec fn code_value<U>(tree: Option<Node<U>>, bits: Seq<bool>) -> Result<U, DecodingError> {
    match tree {
        None => Err(DecodingError::InvalidEncoding),
        Some(t) => decode_code(t, bits),
    }
}

/// The code of a held symbol reads back as that symbol.
pub proof fn lemma_code_round_trip<U>(t: Node<U>, v: U)
    requires
        t.holds(v),
    ensures
        decode_code(t, t.path(v)->Some_0) == Ok::<U, DecodingError>(v),
    decreases t,
{
    lemma_path_holds(t, v);
    if let Node::Parent { left, right, .. } = t {
        lemma_path_holds(*left, v);
        lemma_path_holds(*right, v);
        let p = t.path(v)->Some_0;
        if left.holds(v) {
            assert(p.drop_first() =~= left.path(v)->Some_0);
            lemma_code_round_trip(*left, v);
        } else {
            assert(p.drop_first() =~= right.path(v)->Some_0);
            lemma_code_round_trip(*right, v);
        }
    }
}

/// A tree is lower than its number of leaves, and has one parent fewer than leaves.
pub proof fn lemma_height_below_leaves<U>(t: Node<U>)
    ensures
        t.height() < t.leaf_count(),
        t.parent_count() + 1 == t.leaf_count(),
    decreases t,
{
    if let Node::Parent { left, right, .. } = t {
        lemma_height_below_leaves(*left);
        lemma_height_below_leaves(*right);
    }
}

/// A symbol has a path exactly when a leaf holds it, and the path is no longer than
/// the tree is high.
pub proof fn lemma_path_holds<U>(t: Node<U>, v: U)
    ensures
        t.path(v) is Some <==> t.holds(v),
        t.path(v) is Some ==> t.path(v)->Some_0.len() <= t.height(),
    decreases t,
{
    if let Node::Parent { left, right, .. } = t {
        lemma_path_holds(*left, v);
        lemma_path_holds(*right, v);
    }
}

/// Insertion keeps the weights consistent, adds the inserted weight and one leaf, and
/// keeps every symbol in one leaf when the inserted one is new; the old leaves keep
/// their weights and the new one has weight `freq`.
pub proof fn lemma_inserted<U>(t: Node<U>, freq: usize, v: U)
    requires
        t.counts_consistent(),
        t.weight() + freq <= usize::MAX,
    ensures
        t.inserted(freq, v).counts_consistent(),
        t.inserted(freq, v).weight() == t.weight() + freq,
        t.inserted(freq, v).leaf_count() == t.leaf_count() + 1,
        forall|w: U| #[trigger] t.inserted(freq, v).holds(w) <==> t.holds(w) || w == v,
        t.unique_leaves() && !t.holds(v) ==> t.inserted(freq, v).unique_leaves(),
        !t.holds(v) ==> t.inserted(freq, v).leaf_weight(v) == freq,
        forall|w: U|
            t.holds(w) && w != v ==> #[trigger] t.inserted(freq, v).leaf_weight(w)
                == t.leaf_weight(w),
    decreases t,
{
    match t {
        Node::Parent { count, left, right } => {
            let t2 = t.inserted(freq, v);
            if right.weight() > left.weight() {
                lemma_inserted(*left, freq, v);
                let l2 = left.inserted(freq, v);
                assert forall|w: U| #[trigger] t2.holds(w) <==> t.holds(w) || w == v by {
                    assert(l2.holds(w) <==> left.holds(w) || w == v);
                }
                if t.unique_leaves() && !t.holds(v) {
                    assert forall|w: U| !(#[trigger] l2.holds(w) && right.holds(w)) by {
                        assert(l2.holds(w) <==> left.holds(w) || w == v);
                    }
                    assert(t2.unique_leaves());
                }
                assert(l2.holds(v));
                if !t.holds(v) {
                    assert(!left.holds(v));
                    assert(t2.leaf_weight(v) == l2.leaf_weight(v));
                    assert(l2.leaf_weight(v) == freq);
                    assert(t.inserted(freq, v) == t2);
                }
                assert forall|w: U| t.holds(w) && w != v implies #[trigger] t2.leaf_weight(w)
                    == t.leaf_weight(w) by {
                    assert(l2.holds(w) <==> left.holds(w) || w == v);
                    if left.holds(w) {
                        assert(t2.leaf_weight(w) == l2.leaf_weight(w));
                        assert(l2.leaf_weight(w) == left.leaf_weight(w));
                    }
                }
            } else {
                lemma_inserted(*right, freq, v);
                let r2 = right.inserted(freq, v);
                assert forall|w: U| #[trigger] t2.holds(w) <==> t.holds(w) || w == v by {
                    assert(r2.holds(w) <==> right.holds(w) || w == v);
                }
                if t.unique_leaves() && !t.holds(v) {
                    assert forall|w: U| !(#[trigger] left.holds(w) && r2.holds(w)) by {
                        assert(r2.holds(w) <==> right.holds(w) || w == v);
                    }
                    assert(t2.unique_leaves());
                }
                if !t.holds(v) {
                    assert(!left.holds(v) && !right.holds(v));
                    assert(t2.leaf_weight(v) == r2.leaf_weight(v));
                    assert(r2.leaf_weight(v) == freq);
                    assert(t.inserted(freq, v) == t2);
                }
                assert forall|w: U| t.holds(w) && w != v implies #[trigger] t2.leaf_weight(w)
                    == t.leaf_weight(w) by {
                    assert(r2.holds(w) <==> right.holds(w) || w == v);
                    if !left.holds(w) {
                        assert(t2.leaf_weight(w) == r2.leaf_weight(w));
                        assert(r2.leaf_weight(w) == right.leaf_weight(w));
                    }
                }
            }
        },
        Node::Leaf { count, value } => {
            let l = Node::Leaf { count, value };
            let r = Node::Leaf { count: freq, value: v };
            assert(l.counts_consistent() && r.counts_consistent());
            assert(l.leaf_count() == 1 && r.leaf_count() == 1);
            assert forall|w: U| #[trigger] t.inserted(freq, v).holds(w) <==> t.holds(w) || w == v by {
                assert(l.holds(w) <==> w == value);
                assert(r.holds(w) <==> w == v);
            }
            assert forall|w: U| t.holds(w) && w != v implies #[trigger] t.inserted(freq, v).leaf_weight(
                w,
            ) == t.leaf_weight(w) by {
                assert(l.holds(w));
            }
            if !t.holds(v) {
                assert(!l.holds(v));
                assert(t.inserted(freq, v).leaf_weight(v) == r.leaf_weight(v));
                assert(r.leaf_weight(v) == freq);
            }
            if !t.holds(v) {
                assert forall|w: U| !(#[trigger] l.holds(w) && r.holds(w)) by {
                    assert(l.holds(w) <==> w == value);
                    assert(r.holds(w) <==> w == v);
                }
                assert(l.unique_leaves() && r.unique_leaves());
                assert(t.inserted(freq, v).unique_leaves());
            }
        },
    }
}


/// A path from the root of a code tree: `false` for a step left, `true` for a step right.
pub struct Encoding {
    path: BitVec,
}

impl View for Encoding {
    type V = Seq<bool>;

    closed spec fn view(&self) -> Seq<bool> {
        self.path@
    }
}

impl Encoding {
    pub closed spec fn wf(&self) -> bool {
        self.path.wf()
    }

    /// The empty path, which leads to the root.
    pub fn new_zeroed() -> (r: Self)
        ensures
            r.wf(),
            r@ == Seq::<bool>::empty(),
    {
        Encoding { path: BitVec::new() }
    }

    /// The empty path; the same as `new_zeroed`.
    pub fn new() -> (r: Self)
        ensures
            r.wf(),
            r@ == Seq::<bool>::empty(),
    {
        Self::new_zeroed()
    }

    /// The path one step further, to the left child.
    pub fn step_left(&self) -> (r: Self)
        requires
            self.wf(),
            self@.len() + 8 <= usize::MAX,
        ensures
            r.wf(),
            r@ == self@.push(false),
    {
        let mut path = self.path.duplicate();
        path.append_bit(false);
        Encoding { path }
    }

    /// The path one step further, to the right child.
    pub fn step_right(&self) -> (r: Self)
        requires
            self.wf(),
            self@.len() + 8 <= usize::MAX,
        ensures
            r.wf(),
            r@ == self@.push(true),
    {
        let mut path = self.path.duplicate();
        path.append_bit(true);
        Encoding { path }
    }

    /// The number of steps.
    pub fn len_bits(&self) -> (r: usize)
        requires
            self.wf(),
        ensures
            r == self@.len(),
    {
        self.path.len_bits()
    }

    /// Walks the steps, first to last.
    pub fn iter_bits(&self) -> (r: BitIterator<'_>)
        requires
            self.wf(),
        ensures
            r.wf(),
            r.bits() == self@,
            r.pos() == 0,
    {
        self.path.iter_bits()
    }

    /// The steps as a view of bits, to be appended to a bit buffer.
    pub fn as_bits(&self) -> (r: BitView<'_>)
        requires
            self.wf(),
        ensures
            r.wf(),
            r@ == self@,
    {
        self.path.as_bit_view()
    }
}

impl<U: BinaryCodable> Node<U> {
    pub fn count(&self) -> (r: usize)
        ensures
            r == self.weight(),
    {
        match self {
            Node::Parent { count, .. } => *count,
            Node::Leaf { count, .. } => *count,
        }
    }

    /// The path to the leftmost leaf that holds `target`, appended to `encoding`.
    pub fn encode(&self, encoding: Encoding, target: &U) -> (r: Option<Encoding>)
        requires
            encoding.wf(),
            encoding@.len() + self.height() + 8 <= usize::MAX,
        ensures
            match (r, self.path(*target)) {
                (Some(e), Some(p)) => e.wf() && e@ == encoding@ + p,
                (None, None) => true,
                _ => false,
            },
        decreases self,
    {
        match self {
            Node::Parent { left, right, .. } => {
                match left.encode(encoding.step_left(), target) {
                    Some(ret) => {
                        proof {
                            let p = left.path(*target)->Some_0;
                            assert(ret@ =~= encoding@ + (seq![false] + p));
                        }
                        Some(ret)
                    },
                    None => {
                        let r = right.encode(encoding.step_right(), target);
                        proof {
                            if r is Some {
                                let p = right.path(*target)->Some_0;
                                assert(r->Some_0@ =~= encoding@ + (seq![true] + p));
                            }
                        }
                        r
                    },
                }
            },
            Node::Leaf { value, .. } => {
                if value.same(target) {
                    proof {
                        assert(encoding@ =~= encoding@ + Seq::<bool>::empty());
                    }
                    Some(encoding)
                } else {
                    None
                }
            },
        }
    }

    /// Appends the serialization of the subtree to `buf`.
    pub fn serialize(&self, buf: &mut Vec<u8>)
        ensures
            final(buf)@ == old(buf)@ + self.serialized(),
        decreases self,
    {
        match self {
            Node::Parent { left, right, .. } => {
                buf.push(PARENT_TAG);
                left.serialize(buf);
                right.serialize(buf);
                assert(final(buf)@ =~= old(buf)@ + self.serialized());
            },
            Node::Leaf { value, .. } => {
                buf.push(LEAF_TAG);
                let mut bytes = value.to_fixed_bytes();
                buf.append(&mut bytes);
                assert(final(buf)@ =~= old(buf)@ + self.serialized());
            },
        }
    }

    /// Parses the tree serialized at the start of `buf`; returns it with the number of
    /// bytes it takes. Weights are not stored, so they come back as zero.
    pub fn deserialize(buf: &[u8]) -> (r: Result<(Self, usize), NodeDeserializationError>)
        ensures
            match (r, parse_node::<U>(buf@)) {
                (Ok((t, n)), Ok((t2, n2))) => t == t2 && n == n2,
                (Err(e), Err(e2)) => e == e2,
                _ => false,
            },
    {
        assert(buf@.skip(0) =~= buf@);
        Self::deserialize_at(buf, 0)
    }

    fn deserialize_at(buf: &[u8], pos: usize) -> (r: Result<(Self, usize), NodeDeserializationError>)
        requires
            pos <= buf@.len(),
        ensures
            match (r, parse_node::<U>(buf@.skip(pos as int))) {
                (Ok((t, n)), Ok((t2, n2))) => t == t2 && n == n2,
                (Err(e), Err(e2)) => e == e2,
                _ => false,
            },
        decreases buf@.len() - pos,
    {
        let ghost b = buf@.skip(pos as int);
        if pos == buf.len() {
            return Err(NodeDeserializationError::MissingNodeTypeSpecifier);
        }
        let tag = buf[pos];
        assert(b[0] == tag);
        if tag == LEAF_TAG {
            let w = U::fixed_size();
            if buf.len() - pos - 1 < w {
                return Err(NodeDeserializationError::MissingNodeUnitData);
            }
            let bytes = vstd::slice::slice_subrange(buf, pos + 1, pos + 1 + w);
            assert(bytes@ =~= b.subrange(1, 1 + U::width() as int));
            match U::from_fixed_bytes(bytes) {
                Some(v) => {
                    proof {
                        let c = choose|c: U| #[trigger] c.fixed_bytes() == b.subrange(1, 1 + U::width() as int);
                        U::lemma_fixed_bytes(c, v);
                    }
                    Ok((Node::Leaf { count: 0, value: v }, 1 + w))
                },
                None => Err(NodeDeserializationError::InvalidNodeUnitData),
            }
        } else if tag == PARENT_TAG {
            assert(buf@.skip(pos + 1) =~= b.skip(1));
            match Self::deserialize_at(buf, pos + 1) {
                Err(e) => Err(e),
                Ok((left, n1)) => {
                    proof { lemma_parse_len::<U>(b.skip(1)); }
                    assert(buf@.skip(pos + 1 + n1) =~= b.skip(1 + n1 as int));
                    match Self::deserialize_at(buf, pos + 1 + n1) {
                        Err(e) => Err(e),
                        Ok((right, n2)) => {
                            proof { lemma_parse_len::<U>(b.skip(1 + n1 as int)); }
                            Ok((
                                Node::Parent { count: 0, left: Box::new(left), right: Box::new(right) },
                                1 + n1 + n2,
                            ))
                        },
                    }
                },
            }
        } else {
            Err(NodeDeserializationError::InvalidNodeTypeSpecifier(tag))
        }
    }

    /// The symbol whose code, from step `depth` of `encoding` on, leads from this node
    /// exactly to a leaf.
    pub fn decode(&self, encoding: &Encoding, depth: usize) -> (r: Result<U, DecodingError>)
        requires
            encoding.wf(),
            depth <= encoding@.len(),
        ensures
            r == decode_code(*self, encoding@.skip(depth as int)),
        decreases encoding@.len() - depth,
    {
        let n = encoding.len_bits();
        let ghost bits = encoding@.skip(depth as int);
        match self {
            Node::Parent { left, right, .. } => {
                if depth == n {
                    Err(DecodingError::InvalidEncoding)
                } else {
                    assert(bits.drop_first() =~= encoding@.skip(depth + 1));
                    if encoding.path.as_bit_view().bit_at(depth) {
                        right.decode(encoding, depth + 1)
                    } else {
                        left.decode(encoding, depth + 1)
                    }
                }
            },
            Node::Leaf { value, .. } => {
                if depth == n {
                    Ok(value.duplicate())
                } else {
                    Err(DecodingError::InvalidEncoding)
                }
            },
        }
    }

    /// Adds a leaf for `insert_value` with weight `freq`, as `inserted` describes.
    pub fn insert(&mut self, freq: usize, insert_value: U)
        requires
            old(self).counts_consistent(),
            old(self).weight() + freq <= usize::MAX,
        ensures
            *final(self) == old(self).inserted(freq, insert_value),
        decreases *old(self),
    {
        match self {
            Node::Parent { count, left, right } => {
                if right.count() > left.count() {
                    left.insert(freq, insert_value);
                } else {
                    right.insert(freq, insert_value);
                }
                *count = *count + freq;
            },
            Node::Leaf { count, value } => {
                let c = *count;
                let v = value.duplicate();
                *self = Node::Parent {
                    count: c + freq,
                    left: Box::new(Node::Leaf { count: c, value: v }),
                    right: Box::new(Node::Leaf { count: freq, value: insert_value }),
                };
            },
        }
    }
}

} // verus!
