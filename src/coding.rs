//! Coding of symbol sequences: building the code tree from a sequence, the coded bit
//! stream, and decoding it back.

use vstd::arithmetic::power2::{lemma_pow2_unfold, pow2};
use vstd::prelude::*;

use crate::bitvec::{BitVec, BitView};
use crate::frequency::{
    frequencies, keys, lemma_frequencies, occurrences, lemma_keys_prefix, lemma_sorted_by_count,
    lemma_total_prefix, sort_frequencies, sorted_by_count, total, value_frequencies,
};
use crate::symbol::BinaryCodable;
use crate::tree::{
    code_value, lemma_height_below_leaves, lemma_inserted, lemma_path_holds, lemma_shape,
    parse_node, DecodingError, Encoding, Node, NodeDeserializationError,
};

verus! {

/// `r` with `out` in front of its symbols.
pub open spec fn prepend<U>(out: Seq<U>, r: Result<Seq<U>, DecodingError>) -> Result<
    Seq<U>,
    DecodingError,
> {
    match r {
        Ok(s) => Ok(out + s),
        Err(e) => Err(e),
    }
}

/// Decoding `bits` from node `cur` of the tree `root`; `at_root` tells whether the
/// walk stands at the root. A bit picks a child (`true`: right); at a leaf its symbol
/// is emitted and the walk goes back to the root. The bits must end at the root.
pub open spec fn walk<U>(root: Node<U>, cur: Node<U>, at_root: bool, bits: Seq<bool>) -> Result<
    Seq<U>,
    DecodingError,
>
    decreases bits.len(),
{
    if bits.len() == 0 {
        if at_root {
            Ok(Seq::empty())
        } else {
            Err(DecodingError::InvalidEncoding)
        }
    } else {
        match cur {
            Node::Parent { left, right, .. } => {
                let next = if bits[0] {
                    *right
                } else {
                    *left
                };
                match next {
                    Node::Leaf { value, .. } => prepend(
                        seq![value],
                        walk(root, root, true, bits.drop_first()),
                    ),
                    Node::Parent { .. } => walk(root, next, false, bits.drop_first()),
                }
            },
            Node::Leaf { .. } => Err(DecodingError::InvalidEncoding),
        }
    }
}

/// The number written by `bits`, most significant bit first.
pub open spec fn bits_value(bits: Seq<bool>) -> nat
    decreases bits.len(),
{
    if bits.len() == 0 {
        0
    } else {
        2 * bits_value(bits.drop_last()) + if bits.last() {
            1nat
        } else {
            0nat
        }
    }
}

/// The 64 bits of `n`, most significant first.
pub open spec fn count_bits(n: u64) -> Seq<bool> {
    Seq::new(64, |i: int| (n >> (63 - i) as u64) & 1u64 == 1u64)
}

/// What the code tree `root` decodes `bits` to, walking from the root. A tree of a
/// single leaf stands at that leaf from the start: with no bits the walk ends there
/// and emits its symbol; a bit has no child to go to.
pub open spec fn decoded<U>(root: Node<U>, bits: Seq<bool>) -> Result<Seq<U>, DecodingError> {
    match root {
        Node::Leaf { value, .. } => if bits.len() == 0 {
            Ok(seq![value])
        } else {
            Err(DecodingError::InvalidEncoding)
        },
        Node::Parent { .. } => walk(root, root, true, bits),
    }
}

/// What the bit section of a compressed blob decodes to with the tree `root`. A tree
/// of a single leaf codes its symbol with no bits, so there the section holds the
/// number of occurrences instead, as 64 bits, most significant first.
pub open spec fn decoded_stored<U>(root: Node<U>, bits: Seq<bool>) -> Result<
    Seq<U>,
    DecodingError,
> {
    match root {
        Node::Leaf { value, .. } => if bits.len() == 64 {
            Ok(Seq::new(bits_value(bits), |i: int| value))
        } else {
            Err(DecodingError::InvalidEncoding)
        },
        Node::Parent { .. } => decoded(root, bits),
    }
}

/// A number of `n` bits is below 2^n.
pub proof fn lemma_bits_value_bound(bits: Seq<bool>)
    ensures
        bits_value(bits) < pow2(bits.len()),
    decreases bits.len(),
{
    if bits.len() > 0 {
        lemma_bits_value_bound(bits.drop_last());
        lemma_pow2_unfold(bits.len());
    } else {
        reveal(vstd::arithmetic::power::pow);
    }
}

/// The first `k` of the 64 bits of `n` read as `n` without its last `64 - k` bits.
proof fn lemma_count_bits_prefix(n: u64, k: nat)
    requires
        1 <= k <= 64,
    ensures
        bits_value(count_bits(n).take(k as int)) == n >> (64 - k) as u64,
    decreases k,
{
    let s = count_bits(n).take(k as int);
    if k == 1 {
        assert(s.drop_last() =~= Seq::<bool>::empty());
        assert(s.last() == ((n >> 63u64) & 1u64 == 1u64));
        assert((n >> 63u64) == ((n >> 63u64) & 1u64)) by (bit_vector);
        assert(((n >> 63u64) & 1u64) <= 1) by (bit_vector);
        assert(bits_value(s.drop_last()) == 0);
        assert(bits_value(s) == n >> 63u64);
    } else {
        lemma_count_bits_prefix(n, (k - 1) as nat);
        assert(s.drop_last() =~= count_bits(n).take(k - 1));
        let sh = (64 - k) as u64;
        assert(sh < 63);
        assert(s.last() == ((n >> sh) & 1u64 == 1u64));
        assert((n >> sh) == 2 * (n >> ((sh + 1) as u64)) + ((n >> sh) & 1u64)) by (bit_vector)
            requires sh < 63;
        assert(((n >> sh) & 1u64) <= 1) by (bit_vector);
        assert((64 - (k - 1)) as u64 == sh + 1);
        assert(bits_value(s.drop_last()) == n >> ((sh + 1) as u64));
        let bit: nat = if s.last() { 1 } else { 0 };
        assert(bit == (n >> sh) & 1u64);
        assert(bits_value(s) == 2 * bits_value(s.drop_last()) + bit);
        assert(bits_value(s) == n >> sh);
    }
}

/// The 64 bits of a number read back as that number.
pub proof fn lemma_count_bits(n: u64)
    ensures
        bits_value(count_bits(n)) == n,
{
    lemma_count_bits_prefix(n, 64);
    assert(count_bits(n).take(64) =~= count_bits(n));
    assert(n >> 0u64 == n) by (bit_vector);
}

/// The tree built by inserting the entries of `freqs` in order: the first becomes a
/// single leaf, each later one goes in by `inserted`.
pub open spec fn build_tree<U>(freqs: Seq<(U, usize)>) -> Option<Node<U>>
    decreases freqs.len(),
{
    if freqs.len() == 0 {
        None
    } else {
        match build_tree(freqs.drop_last()) {
            None => Some(Node::Leaf { count: freqs.last().1, value: freqs.last().0 }),
            Some(t) => Some(t.inserted(freqs.last().1, freqs.last().0)),
        }
    }
}

/// The code tree of `s`: its frequency table sorted by count, inserted in order.
/// Symbols with equal counts go in the order of their first occurrence in `s`, so the
/// tree, and with it the compressed form, depends on `s` alone.
pub open spec fn code_tree<U>(s: Seq<U>) -> Option<Node<U>> {
    build_tree(sorted_by_count(frequencies(s)))
}

/// The codes of the symbols of `s` in `t`, one after the other.
pub open spec fn code_bits<U>(t: Node<U>, s: Seq<U>) -> Seq<bool>
    decreases s.len(),
{
    if s.len() == 0 {
        Seq::empty()
    } else {
        code_bits(t, s.drop_last()) + match t.path(s.last()) {
            Some(p) => p,
            None => Seq::empty(),
        }
    }
}

/// The bit section of the compressed blob of `s` with the tree `t`: the codes of its
/// symbols, or for a tree of a single leaf the number of symbols as 64 bits.
pub open spec fn stored_bits<U>(t: Node<U>, s: Seq<U>) -> Seq<bool> {
    match t {
        Node::Leaf { .. } => count_bits(s.len() as u64),
        Node::Parent { .. } => code_bits(t, s),
    }
}

/// A tree of a single leaf codes its symbol with no bits.
pub proof fn lemma_code_bits_leaf<U>(t: Node<U>, s: Seq<U>)
    requires
        t is Leaf,
    ensures
        code_bits(t, s) == Seq::<bool>::empty(),
    decreases s.len(),
{
    if s.len() > 0 {
        lemma_code_bits_leaf(t, s.drop_last());
        if t.path(s.last()) is Some {
            assert(code_bits(t, s) =~= Seq::<bool>::empty());
        } else {
            assert(code_bits(t, s) =~= Seq::<bool>::empty());
        }
    }
}

/// A walk that ends at the root can be followed by more bits.
pub proof fn lemma_walk_append<U>(root: Node<U>, cur: Node<U>, at_root: bool, a: Seq<bool>, b: Seq<bool>)
    requires
        at_root ==> cur == root,
        walk(root, cur, at_root, a) is Ok,
    ensures
        walk(root, cur, at_root, a + b) == prepend(
            walk(root, cur, at_root, a)->Ok_0,
            walk(root, root, true, b),
        ),
    decreases a.len(),
{
    if a.len() == 0 {
        assert(a + b =~= b);
        match walk(root, root, true, b) {
            Ok(t) => {
                assert(Seq::<U>::empty() + t =~= t);
            },
            Err(_) => {},
        }
    } else {
        assert((a + b)[0] == a[0]);
        assert((a + b).drop_first() =~= a.drop_first() + b);
        if let Node::Parent { left, right, .. } = cur {
            let next = if a[0] {
                *right
            } else {
                *left
            };
            match next {
                Node::Leaf { value, .. } => {
                    lemma_walk_append(root, root, true, a.drop_first(), b);
                    let x = walk(root, root, true, a.drop_first())->Ok_0;
                    match walk(root, root, true, b) {
                        Ok(t) => {
                            assert(seq![value] + (x + t) =~= (seq![value] + x) + t);
                        },
                        Err(_) => {},
                    }
                },
                Node::Parent { .. } => {
                    lemma_walk_append(root, next, false, a.drop_first(), b);
                },
            }
        }
    }
}

/// Walking the path to a leaf that holds `v` emits `v` and comes back to the root.
pub proof fn lemma_walk_path<U>(root: Node<U>, cur: Node<U>, at_root: bool, v: U)
    requires
        cur is Parent,
        cur.holds(v),
    ensures
        walk(root, cur, at_root, cur.path(v)->Some_0) == Ok::<Seq<U>, DecodingError>(seq![v]),
    decreases cur,
{
    lemma_path_holds(cur, v);
    if let Node::Parent { left, right, .. } = cur {
        lemma_path_holds(*left, v);
        lemma_path_holds(*right, v);
        let p = cur.path(v)->Some_0;
        let (b, next) = if left.holds(v) {
            (false, *left)
        } else {
            (true, *right)
        };
        let q = next.path(v)->Some_0;
        assert(p == seq![b] + q);
        assert(p.drop_first() =~= q);
        match next {
            Node::Leaf { value, .. } => {
                assert(q =~= Seq::<bool>::empty());
                assert(value == v);
                assert(walk(root, root, true, p.drop_first()) == Ok::<Seq<U>, DecodingError>(
                    Seq::empty(),
                ));
                assert(seq![value] + Seq::<U>::empty() =~= seq![v]);
            },
            Node::Parent { .. } => {
                lemma_walk_path(root, next, false, v);
            },
        }
    }
}

/// The codes of the symbols of `s` decode to `s`.
pub proof fn lemma_walk_code_bits<U>(t: Node<U>, s: Seq<U>)
    requires
        t is Parent,
        forall|i: int| 0 <= i < s.len() ==> t.holds(#[trigger] s[i]),
    ensures
        walk(t, t, true, code_bits(t, s)) == Ok::<Seq<U>, DecodingError>(s),
    decreases s.len(),
{
    if s.len() == 0 {
        assert(s =~= Seq::<U>::empty());
    } else {
        let s0 = s.drop_last();
        let v = s.last();
        assert(t.holds(s[s.len() - 1]));
        lemma_walk_code_bits(t, s0);
        lemma_path_holds(t, v);
        lemma_walk_append(t, t, true, code_bits(t, s0), t.path(v)->Some_0);
        lemma_walk_path(t, t, true, v);
        assert(s0 + seq![v] =~= s);
    }
}


/// Weights play no part in walks.
proof fn lemma_shape_code_bits<U>(t: Node<U>, s: Seq<U>)
    ensures
        code_bits(t.shape(), s) == code_bits(t, s),
    decreases s.len(),
{
    lemma_shape(t);
    if s.len() > 0 {
        lemma_shape_code_bits(t, s.drop_last());
    }
}

/// A tree decodes the bit section it wrote, whatever its weights.
pub proof fn lemma_decode_encoded<U>(t: Node<U>, s: Seq<U>)
    requires
        forall|i: int| 0 <= i < s.len() ==> t.holds(#[trigger] s[i]),
        s.len() <= u64::MAX,
    ensures
        decoded_stored(t.shape(), stored_bits(t, s)) == Ok::<Seq<U>, DecodingError>(s),
{
    lemma_shape(t);
    match t {
        Node::Leaf { value, .. } => {
            lemma_count_bits(s.len() as u64);
            assert forall|i: int| 0 <= i < s.len() implies s[i] == value by {
                assert(t.holds(s[i]));
            }
            assert(Seq::new(s.len(), |i: int| value) =~= s);
        },
        Node::Parent { .. } => {
            lemma_shape_code_bits(t, s);
            let u = t.shape();
            assert forall|i: int| 0 <= i < s.len() implies u.holds(#[trigger] s[i]) by {
                assert(t.holds(s[i]));
            }
            lemma_walk_code_bits(u, s);
        },
    }
}

/// What the tree built from a table holds: a leaf per entry, weighted by the entry's
/// count, with consistent weights.
pub proof fn lemma_build_tree<U>(f: Seq<(U, usize)>)
    requires
        keys(f).no_duplicates(),
        total(f) <= usize::MAX,
    ensures
        match build_tree(f) {
            None => f.len() == 0,
            Some(t) => {
                &&& t.counts_consistent()
                &&& t.unique_leaves()
                &&& t.weight() == total(f)
                &&& t.leaf_count() == f.len()
                &&& forall|v: U| #[trigger] t.holds(v) <==> keys(f).contains(v)
                &&& forall|i: int| 0 <= i < f.len() ==> t.leaf_weight(#[trigger] f[i].0) == f[i].1
            },
        },
    decreases f.len(),
{
    if f.len() > 0 {
        let f0 = f.drop_last();
        let x = f.last();
        assert(f =~= f0.push(x));
        assert(keys(f).drop_last() =~= keys(f0));
        assert(keys(f) =~= keys(f0).push(x.0));
        crate::frequency::lemma_drop_last_no_duplicates(keys(f));
        lemma_build_tree(f0);
        crate::frequency::lemma_keys_push(f0, x);
        assert(total(f) == total(f0) + x.1);
        match build_tree(f0) {
            None => {
                assert(keys(f0) =~= Seq::<U>::empty());
                assert(total(f0) == 0);
                let leaf = Node::Leaf { count: x.1, value: x.0 };
                assert(build_tree(f) == Some(leaf));
                assert forall|v: U| #[trigger] leaf.holds(v) <==> keys(f).contains(v) by {
                    assert(keys(f0.push(x)).contains(v) <==> keys(f0).contains(v) || v == x.0);
                }
            },
            Some(t) => {
                assert(!keys(f0).contains(x.0));
                lemma_inserted(t, x.1, x.0);
                let t2 = t.inserted(x.1, x.0);
                assert(build_tree(f) == Some(t2));
                assert forall|v: U| #[trigger] t2.holds(v) <==> keys(f).contains(v) by {
                    assert(keys(f0.push(x)).contains(v) <==> keys(f0).contains(v) || v == x.0);
                    assert(t2.holds(v) <==> t.holds(v) || v == x.0);
                }
                assert forall|i: int| 0 <= i < f.len() implies t2.leaf_weight(#[trigger] f[i].0)
                    == f[i].1 by {
                    if i < f0.len() {
                        assert(f[i] == f0[i]);
                        assert(keys(f0)[i] == f0[i].0);
                        assert(keys(f0).contains(f0[i].0));
                        assert(t.holds(f0[i].0));
                        assert(keys(f)[i] != keys(f)[f0.len() as int]);
                        assert(t.leaf_weight(f0[i].0) == f0[i].1);
                    }
                }
            },
        }
    }
}

/// What the code tree of `s` holds: exactly the symbols of `s`, each in one leaf (so
/// one leaf per distinct symbol) whose weight is its number of occurrences, with
/// consistent weights that add up to the length of `s`.
pub proof fn lemma_code_tree<U>(s: Seq<U>)
    requires
        s.len() <= usize::MAX,
    ensures
        match code_tree(s) {
            None => s.len() == 0,
            Some(t) => {
                &&& t.counts_consistent()
                &&& t.unique_leaves()
                &&& t.weight() == s.len()
                &&& t.leaf_count() == frequencies(s).len()
                &&& forall|v: U| #[trigger] t.holds(v) <==> s.contains(v)
                &&& forall|v: U| s.contains(v) ==> #[trigger] t.leaf_weight(v) == occurrences(s, v)
            },
        },
{
    lemma_frequencies(s);
    let f = sorted_by_count(frequencies(s));
    lemma_sorted_by_count(frequencies(s));
    lemma_build_tree(f);
    if code_tree(s) is None && s.len() > 0 {
        assert(s.contains(s[0]));
        assert(keys(f).contains(s[0]));
    }
    if let Some(t) = code_tree(s) {
        let g = frequencies(s);
        assert forall|v: U| s.contains(v) implies #[trigger] t.leaf_weight(v) == occurrences(s, v) by {
            assert(keys(g).contains(v));
            let i = choose|i: int| 0 <= i < keys(g).len() && keys(g)[i] == v;
            assert(g[i].0 == v);
            assert(g.contains(g[i]));
            assert(f.contains(g[i]));
            let j = choose|j: int| 0 <= j < f.len() && f[j] == g[i];
            assert(t.leaf_weight(f[j].0) == f[j].1);
        }
    }
}


/// A proper, non-empty part of a path stops inside the tree.
proof fn lemma_walk_path_prefix<U>(root: Node<U>, cur: Node<U>, at_root: bool, v: U, j: int)
    requires
        cur is Parent,
        cur.holds(v),
        0 < j < cur.path(v)->Some_0.len(),
    ensures
        walk(root, cur, at_root, cur.path(v)->Some_0.take(j)) is Err,
    decreases cur,
{
    lemma_path_holds(cur, v);
    if let Node::Parent { left, right, .. } = cur {
        lemma_path_holds(*left, v);
        lemma_path_holds(*right, v);
        let p = cur.path(v)->Some_0;
        let (b, next) = if left.holds(v) {
            (false, *left)
        } else {
            (true, *right)
        };
        let q = next.path(v)->Some_0;
        assert(p == seq![b] + q);
        let pj = p.take(j);
        assert(pj[0] == b);
        assert(pj.drop_first() =~= q.take(j - 1));
        match next {
            Node::Leaf { .. } => {
                assert(q.len() == 0);
            },
            Node::Parent { .. } => {
                assert(walk(root, cur, at_root, pj) == walk(root, next, false, pj.drop_first()));
                if j - 1 > 0 {
                    lemma_walk_path_prefix(root, next, false, v, j - 1);
                } else {
                    assert(q.take(0) =~= Seq::<bool>::empty());
                    assert(walk(root, next, false, Seq::<bool>::empty()) is Err);
                }
            },
        }
    }
}

/// A prefix of the codes of `s` decodes to a prefix of `s`, if to anything.
pub proof fn lemma_walk_code_bits_prefix<U>(t: Node<U>, s: Seq<U>, len: int)
    requires
        t is Parent,
        forall|i: int| 0 <= i < s.len() ==> t.holds(#[trigger] s[i]),
        0 <= len <= code_bits(t, s).len(),
    ensures
        walk(t, t, true, code_bits(t, s).take(len)) matches Ok(x) ==> x.len() <= s.len() && x
            == s.take(x.len() as int),
    decreases s.len(),
{
    if s.len() == 0 {
        assert(code_bits(t, s).take(len) =~= Seq::<bool>::empty());
    } else {
        let s0 = s.drop_last();
        let v = s.last();
        let c0 = code_bits(t, s0);
        assert(t.holds(s[s.len() - 1]));
        lemma_path_holds(t, v);
        let p = t.path(v)->Some_0;
        let c = code_bits(t, s);
        assert(c == c0 + p);
        if len <= c0.len() {
            assert(c.take(len) =~= c0.take(len));
            lemma_walk_code_bits_prefix(t, s0, len);
            if let Ok(x) = walk(t, t, true, c.take(len)) {
                assert(s0.take(x.len() as int) =~= s.take(x.len() as int));
            }
        } else {
            let j = len - c0.len();
            assert(c.take(len) =~= c0 + p.take(j));
            lemma_walk_code_bits(t, s0);
            lemma_walk_append(t, t, true, c0, p.take(j));
            if j < p.len() {
                lemma_walk_path_prefix(t, t, true, v, j);
            } else {
                assert(p.take(j) =~= p);
                lemma_walk_path(t, t, true, v);
                assert(s0 + seq![v] =~= s);
                assert(s.take(s.len() as int) =~= s);
            }
        }
    }
}

/// A prefix of the bit section decodes to a prefix of `s`, if to anything.
pub proof fn lemma_decode_prefix<U>(t: Node<U>, s: Seq<U>, len: int)
    requires
        forall|i: int| 0 <= i < s.len() ==> t.holds(#[trigger] s[i]),
        s.len() <= u64::MAX,
        0 <= len <= stored_bits(t, s).len(),
    ensures
        decoded_stored(t.shape(), stored_bits(t, s).take(len)) matches Ok(x) ==> x.len() <= s.len()
            && x == s.take(x.len() as int),
{
    lemma_shape(t);
    match t {
        Node::Leaf { .. } => {
            if len == 64 {
                assert(stored_bits(t, s).take(len) =~= stored_bits(t, s));
                lemma_decode_encoded(t, s);
                assert(s.take(s.len() as int) =~= s);
            }
        },
        Node::Parent { .. } => {
            lemma_shape_code_bits(t, s);
            let u = t.shape();
            assert forall|i: int| 0 <= i < s.len() implies u.holds(#[trigger] s[i]) by {
                assert(t.holds(s[i]));
            }
            lemma_walk_code_bits_prefix(u, s, len);
        },
    }
}


/// A code tree used to read symbols back from their codes.
#[derive(Debug)]
pub struct DecodingTree<U> {
    root: Node<U>,
}

impl<U> DecodingTree<U> {
    /// The tree.
    pub closed spec fn root(&self) -> Node<U> {
        self.root
    }
}

/// Decoding trees are equal when their trees have the same shape and symbols.
impl<U: BinaryCodable> PartialEq for DecodingTree<U> {
    fn eq(&self, other: &Self) -> (r: bool) {
        self.root.eq(&other.root)
    }
}

impl<U: BinaryCodable> vstd::std_specs::cmp::PartialEqSpecImpl for DecodingTree<U> {
    open spec fn obeys_eq_spec() -> bool {
        true
    }

    open spec fn eq_spec(&self, other: &DecodingTree<U>) -> bool {
        self.root().shape() == other.root().shape()
    }
}

impl<U: BinaryCodable> DecodingTree<U> {
    /// Reads back the symbols coded by `bitcode`, as `decoded` describes.
    pub fn decode(&self, bitcode: &BitView) -> (r: Result<Vec<U>, DecodingError>)
        requires
            bitcode.wf(),
        ensures
            match (r, decoded(self.root(), bitcode@)) {
                (Ok(v), Ok(s)) => v@ == s,
                (Err(e), Err(e2)) => e == e2,
                _ => false,
            },
    {
        let n = bitcode.len_bits();
        let ghost bits = bitcode@;
        match &self.root {
            Node::Leaf { value, .. } => {
                // A lone leaf: no bits code its symbol once.
                if n == 0 {
                    let mut out: Vec<U> = Vec::new();
                    out.push(value.duplicate());
                    assert(out@ =~= seq![*value]);
                    Ok(out)
                } else {
                    Err(DecodingError::InvalidEncoding)
                }
            },
            Node::Parent { .. } => {
                // Each bit picks a child; a leaf emits its symbol and sends the walk back
                // to the root.
                let mut out: Vec<U> = Vec::new();
                let mut node: &Node<U> = &self.root;
                let mut at_root = true;
                let mut i: usize = 0;
                assert(bits.skip(0) =~= bits);
                while i < n
                    invariant
                        i <= n,
                        n == bits.len(),
                        bitcode.wf(),
                        bits == bitcode@,
                        self.root is Parent,
                        node is Parent,
                        at_root ==> *node == self.root,
                        walk(self.root, self.root, true, bits) == prepend(
                            out@,
                            walk(self.root, *node, at_root, bits.skip(i as int)),
                        ),
                    decreases n - i,
                {
                    let b = bitcode.bit_at(i);
                    proof {
                        assert(bits.skip(i as int).drop_first() =~= bits.skip(i + 1));
                    }
                    match node {
                        Node::Parent { left, right, .. } => {
                            let next: &Node<U> = if b {
                                right
                            } else {
                                left
                            };
                            match next {
                                Node::Parent { .. } => {
                                    node = next;
                                    at_root = false;
                                },
                                Node::Leaf { value, .. } => {
                                    let ghost old_out = out@;
                                    out.push(value.duplicate());
                                    proof {
                                        let rest = walk(self.root, self.root, true, bits.skip(i + 1));
                                        match rest {
                                            Ok(t) => {
                                                assert(old_out + (seq![*value] + t) =~= out@ + t);
                                            },
                                            Err(_) => {},
                                        }
                                    }
                                    node = &self.root;
                                    at_root = true;
                                },
                            }
                        },
                        Node::Leaf { .. } => {
                            assert(false);
                        },
                    }
                    i += 1;
                }
                if at_root {
                    assert(out@ + Seq::<U>::empty() =~= out@);
                    Ok(out)
                } else {
                    Err(DecodingError::InvalidEncoding)
                }
            },
        }
    }

    /// The symbol of the tree's only leaf, when the tree is a single leaf.
    pub fn single_leaf_value(&self) -> (r: Option<U>)
        ensures
            r == match self.root() {
                Node::Leaf { value, .. } => Some(value),
                Node::Parent { .. } => None::<U>,
            },
    {
        match &self.root {
            Node::Leaf { value, .. } => Some(value.duplicate()),
            Node::Parent { .. } => None,
        }
    }

    /// Appends the serialization of the tree to `buf`.
    pub fn serialize(&self, buf: &mut Vec<u8>)
        ensures
            final(buf)@ == old(buf)@ + self.root().serialized(),
    {
        self.root.serialize(buf);
    }

    /// Parses a tree serialized at the start of `input`; returns it with the number of
    /// bytes it takes.
    pub fn deserialize(input: &[u8]) -> (r: Result<(Self, usize), NodeDeserializationError>)
        ensures
            match (r, parse_node::<U>(input@)) {
                (Ok((t, n)), Ok((t2, n2))) => t.root() == t2 && n == n2,
                (Err(e), Err(e2)) => e == e2,
                _ => false,
            },
    {
        match Node::deserialize(input) {
            Ok((root, read)) => Ok((DecodingTree { root }, read)),
            Err(e) => Err(e),
        }
    }
}

/// A code tree being built from symbol frequencies, used to code symbols.
pub struct EncodingTree<U> {
    /// Root of the tree; `None` until a value is added.
    root: Option<Node<U>>,
    /// Number of leaves.
    leaf_count: usize,
}

impl<U> EncodingTree<U> {
    /// The tree.
    pub closed spec fn tree(&self) -> Option<Node<U>> {
        self.root
    }

    pub closed spec fn wf(&self) -> bool {
        &&& self.leaf_count <= usize::MAX / 2
        &&& match self.root {
            None => self.leaf_count == 0,
            Some(t) => t.leaf_count() == self.leaf_count && t.counts_consistent(),
        }
    }
}

impl<U: BinaryCodable> EncodingTree<U> {
    fn new() -> (r: Self)
        ensures
            r.wf(),
            r.tree() is None,
    {
        EncodingTree { root: None, leaf_count: 0 }
    }

    /// The number of leaves.
    pub fn leaf_node_count(&self) -> (r: usize)
        requires
            self.wf(),
        ensures
            r == match self.tree() {
                None => 0,
                Some(t) => t.leaf_count(),
            },
    {
        self.leaf_count
    }

    /// The number of parents: one fewer than the leaves in a non-empty tree.
    pub fn parent_node_count(&self) -> (r: usize)
        requires
            self.wf(),
        ensures
            r == match self.tree() {
                None => 0,
                Some(t) => t.parent_count(),
            },
    {
        proof {
            if self.root is Some {
                lemma_height_below_leaves(self.root->Some_0);
            }
        }
        if self.leaf_count > 0 {
            self.leaf_count - 1
        } else {
            0
        }
    }

    /// The number of nodes.
    pub fn total_node_count(&self) -> (r: usize)
        requires
            self.wf(),
        ensures
            r == match self.tree() {
                None => 0,
                Some(t) => t.leaf_count() + t.parent_count(),
            },
    {
        proof {
            if self.root is Some {
                lemma_height_below_leaves(self.root->Some_0);
            }
        }
        self.leaf_node_count() + self.parent_node_count()
    }

    fn add_value(&mut self, freq: usize, value: U)
        requires
            old(self).wf(),
            old(self).tree() matches Some(t) ==> t.leaf_count() < usize::MAX / 2,
            old(self).tree() matches Some(t) ==> t.weight() + freq <= usize::MAX,
        ensures
            final(self).wf(),
            final(self).tree() == match old(self).tree() {
                None => Some(Node::Leaf { count: freq, value }),
                Some(t) => Some(t.inserted(freq, value)),
            },
    {
        proof {
            if self.root is Some {
                lemma_inserted(self.root->Some_0, freq, value);
            }
        }
        match &mut self.root {
            Some(root) => {
                root.insert(freq, value);
            },
            None => {
                self.root = Some(Node::Leaf { count: freq, value });
            },
        }
        self.leaf_count = self.leaf_count + 1;
    }

    /// The code of `value`: the path to its leaf.
    pub fn encode_value(&self, value: &U) -> (r: Encoding)
        requires
            self.tree() matches Some(t) && t.holds(*value) && t.height() + 8 <= usize::MAX,
        ensures
            r.wf(),
            self.tree()->Some_0.path(*value) == Some(r@),
    {
        proof {
            lemma_path_holds(self.root->Some_0, *value);
        }
        match &self.root {
            Some(root) => match root.encode(Encoding::new_zeroed(), value) {
                Some(e) => {
                    assert(e@ =~= Seq::<bool>::empty() + root.path(*value)->Some_0);
                    e
                },
                None => {
                    proof { assert(false); }
                    Encoding::new_zeroed()
                },
            },
            None => {
                proof { assert(false); }
                Encoding::new_zeroed()
            },
        }
    }

    /// Builds the code tree of `data` and codes `data` with it. A code is shorter than
    /// the number of distinct symbols, so the coded bits fit in a `usize` when the bound
    /// below holds.
    pub fn encode(data: &[U]) -> (r: (Self, BitVec))
        requires
            data@.len() * frequencies(data@).len() + 64 <= usize::MAX,
        ensures
            r.0.wf(),
            r.0.tree() == code_tree(data@),
            r.1.wf(),
            r.1@ == match code_tree(data@) {
                None => Seq::empty(),
                Some(t) => code_bits(t, data@),
            },
            match code_tree(data@) {
                None => data@.len() == 0,
                Some(t) => {
                    &&& t.counts_consistent()
                    &&& t.unique_leaves()
                    &&& forall|v: U| #[trigger] t.holds(v) <==> data@.contains(v)
                    &&& forall|v: U|
                        data@.contains(v) ==> #[trigger] t.leaf_weight(v) == occurrences(data@, v)
                },
            },
    {
        let n = data.len();
        proof {
            lemma_code_tree(data@);
        }
        let mut table = value_frequencies(data);
        let d = table.len();
        proof {
            lemma_frequencies(data@);
            lemma_sorted_by_count(table@);
            assert(d <= usize::MAX / 2) by (nonlinear_arith)
                requires n * d + 64 <= usize::MAX, d <= n;
        }
        sort_frequencies(&mut table);
        let ghost sorted = table@;
        let mut encoder = Self::new();
        let mut i: usize = 0;
        assert(sorted.take(0) =~= Seq::<(U, usize)>::empty());
        while i < table.len()
            invariant
                table@ == sorted,
                sorted == sorted_by_count(frequencies(data@)),
                total(sorted) == n,
                n == data@.len(),
                sorted.len() <= n,
                keys(sorted).no_duplicates(),
                forall|v: U| keys(sorted).contains(v) <==> data@.contains(v),
                i <= sorted.len(),
                encoder.wf(),
                encoder.tree() == build_tree(sorted.take(i as int)),
                i == 0 ==> encoder.tree() is None,
                encoder.leaf_count == i,
                sorted.len() == d,
                d <= usize::MAX / 2,
                encoder.tree() matches Some(t) ==> {
                    &&& t.weight() == total(sorted.take(i as int))
                    &&& t.unique_leaves()
                    &&& forall|v: U| #[trigger] t.holds(v) <==> keys(sorted.take(i as int)).contains(v)
                },
            decreases sorted.len() - i,
        {
            proof {
                lemma_total_prefix(sorted, i as int);
                lemma_total_prefix(sorted, i as int + 1);
                lemma_keys_prefix(sorted, i as int);
                assert(sorted.take(i as int + 1).drop_last() =~= sorted.take(i as int));
                if encoder.tree() is Some {
                    lemma_inserted(encoder.tree()->Some_0, sorted[i as int].1, sorted[i as int].0);
                }
            }
            let value = table[i].0.duplicate();
            let freq = table[i].1;
            encoder.add_value(freq, value);
            i += 1;
            proof {
                let t = encoder.tree()->Some_0;
                if i == 1 {
                    assert forall|v: U| #[trigger] t.holds(v) <==> keys(sorted.take(i as int)).contains(v) by {
                        assert(keys(sorted.take(0)) =~= Seq::<U>::empty());
                    }
                }
            }
        }
        assert(sorted.take(i as int) =~= sorted);
        let mut encoded = BitVec::new();
        match &encoder.root {
            None => {
                proof {
                    if n > 0 {
                        assert(data@.contains(data@[0]));
                        assert(keys(sorted).contains(data@[0]));
                    }
                }
            },
            Some(root) => {
                let ghost t = *root;
                proof {
                    lemma_height_below_leaves(t);
                    assert(data@.take(0) =~= Seq::<U>::empty());
                }
                let mut j: usize = 0;
                while j < n
                    invariant
                        j <= n,
                        n == data@.len(),
                        n * d + 64 <= usize::MAX,
                        encoder.tree() == Some(t),
                        t.height() < t.leaf_count(),
                        t.leaf_count() == d,
                        d <= usize::MAX / 2,
                        forall|v: U| #[trigger] t.holds(v) <==> data@.contains(v),
                        encoded.wf(),
                        encoded@ == code_bits(t, data@.take(j as int)),
                        encoded@.len() <= j * t.height(),
                    decreases n - j,
                {
                    let x = &data[j];
                    proof {
                        assert(data@.contains(data@[j as int]));
                        assert(t.holds(*x));
                        lemma_path_holds(t, *x);
                        assert((j + 1) * t.height() <= n * d) by (nonlinear_arith)
                            requires j < n, t.height() < d;
                        assert(j * t.height() + t.height() == (j + 1) * t.height()) by (nonlinear_arith);
                        assert(data@.take(j as int + 1).drop_last() =~= data@.take(j as int));
                    }
                    let e = encoder.encode_value(x);
                    encoded.extend_from_bits(&e.as_bits());
                    j += 1;
                    proof {
                        assert((j - 1) * t.height() + t.height() == j * t.height()) by (nonlinear_arith);
                    }
                }
                assert(data@.take(n as int) =~= data@);
            },
        }
        (encoder, encoded)
    }

    /// The symbol coded by `encoding`.
    pub fn decode_value(&self, encoding: &Encoding) -> (r: Result<U, DecodingError>)
        requires
            encoding.wf(),
        ensures
            r == code_value(self.tree(), encoding@),
    {
        match &self.root {
            Some(root) => {
                assert(encoding@.skip(0) =~= encoding@);
                root.decode(encoding, 0)
            },
            None => Err(DecodingError::InvalidEncoding),
        }
    }

    /// The symbols coded by `codes`, one per code; the first code that is no symbol's
    /// makes it fail.
    pub fn decode(&self, codes: &[Encoding]) -> (r: Result<Vec<U>, DecodingError>)
        requires
            forall|i: int| 0 <= i < codes@.len() ==> (#[trigger] codes@[i]).wf(),
        ensures
            match r {
                Ok(v) => v@.len() == codes@.len() && forall|i: int|
                    0 <= i < codes@.len() ==> code_value(self.tree(), (#[trigger] codes@[i])@)
                        == Ok::<U, DecodingError>(v@[i]),
                Err(e) => exists|i: int|
                    0 <= i < codes@.len() && code_value(self.tree(), (#[trigger] codes@[i])@)
                        == Err::<U, DecodingError>(e),
            },
    {
        let mut decoded: Vec<U> = Vec::with_capacity(codes.len());
        let mut i: usize = 0;
        while i < codes.len()
            invariant
                i <= codes@.len(),
                forall|k: int| 0 <= k < codes@.len() ==> (#[trigger] codes@[k]).wf(),
                decoded@.len() == i,
                forall|k: int|
                    0 <= k < i ==> code_value(self.tree(), (#[trigger] codes@[k])@) == Ok::<
                        U,
                        DecodingError,
                    >(decoded@[k]),
            decreases codes@.len() - i,
        {
            match self.decode_value(&codes[i]) {
                Ok(v) => {
                    decoded.push(v);
                },
                Err(e) => {
                    assert(code_value(self.tree(), codes@[i as int]@) == Err::<U, DecodingError>(e));
                    return Err(e);
                },
            }
            i += 1;
        }
        Ok(decoded)
    }

    /// The tree, for decoding; `None` when no value was added.
    pub fn into_decoder(self) -> (r: Option<DecodingTree<U>>)
        ensures
            match (r, self.tree()) {
                (Some(d), Some(t)) => d.root() == t,
                (None, None) => true,
                _ => false,
            },
    {
        match self.root {
            Some(root) => Some(DecodingTree { root }),
            None => None,
        }
    }
}

} // verus!
