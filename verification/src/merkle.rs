//! Balanced Merkle trees and Merkle proofs.
//!
//! The leaves of a tree are positioned according to their indices in truncated binary encoding,
//! so that every Merkle proof has a number of hashes within one of any other proof, even when
//! the number of elements is not a power of two.
use vstd::prelude::*;
use crate::crypto::{keccak256, keccak256_spec};
use crate::traits::{twos_complement, Nonce};
use crate::utils::{
    chunks, concat_all, concat_framed, copy32, framed, le_bytes, le_bytes_vec, le_u32_bytes,
    le_u32_value, le_value, le_value_of, lemma_concat_all_push, lemma_concat_framed_push,
    lemma_concat_uniform, lemma_le_bytes_len, lemma_le_bytes_of_value, lemma_le_u32_roundtrip,
    lemma_le_value_bound, lemma_le_value_of_bytes, lemma_parse_framed_roundtrip,
    lemma_parse_framed_split, lemma_pow256_mono, parse_framed, parse_one, pow256, prepend,
    read_framed, read_u32_usize, write_framed, write_u32_usize,
};

verus! {

// ---------------------------------------------------------------------------
// Leaves
// ---------------------------------------------------------------------------

/// Merkle tree element trait
///
/// An element is given by its binary representation: [MerkleLeaf::deserialize] accepts exactly
/// the representations [MerkleLeaf::spec_accepts] allows and gives back an element with that
/// representation, and every element's representation is accepted.
pub trait MerkleLeaf: Sized {
    /// The binary representation of the element.
    spec fn spec_serialize(&self) -> Seq<u8>;

    /// Whether `data` is the binary representation of some element.
    spec fn spec_accepts(data: Seq<u8>) -> bool;

    /// Every element's binary representation is accepted.
    proof fn lemma_serialize_accepted(&self)
        ensures
            Self::spec_accepts(self.spec_serialize()),
    ;

    /// Constructs an element from its binary representation.
    ///
    /// `data` must have been constructed using [MerkleLeaf::serialize].
    fn deserialize(data: &[u8]) -> (r: Result<Self, String>)
        ensures
            r is Ok <==> Self::spec_accepts(data@),
            r matches Ok(v) ==> v.spec_serialize() == data@,
    ;

    /// Generates a binary representation that can be used to reconstruct the element.
    ///
    /// See [MerkleLeaf::deserialize].
    fn serialize(&self) -> (r: Vec<u8>)
        ensures
            r@ == self.spec_serialize(),
    ;
}

impl MerkleLeaf for Vec<u8> {
    open spec fn spec_serialize(&self) -> Seq<u8> {
        self@
    }

    open spec fn spec_accepts(data: Seq<u8>) -> bool {
        true
    }

    proof fn lemma_serialize_accepted(&self) {
    }

    fn deserialize(data: &[u8]) -> (r: Result<Self, String>) {
        Ok(vstd::slice::slice_to_vec(data))
    }

    fn serialize(&self) -> (r: Vec<u8>) {
        self.clone()
    }
}

impl MerkleLeaf for u8 {
    open spec fn spec_serialize(&self) -> Seq<u8> {
        seq![*self]
    }

    open spec fn spec_accepts(data: Seq<u8>) -> bool {
        data.len() == 1
    }

    proof fn lemma_serialize_accepted(&self) {
    }

    fn deserialize(data: &[u8]) -> (r: Result<Self, String>) {
        if data.len() != 1 {
            return Err("data.len() != size_of::<Self>()".to_owned());
        }
        assert(data@ =~= seq![data[0]]);
        Ok(data[0])
    }

    fn serialize(&self) -> (r: Vec<u8>) {
        let mut r = Vec::new();
        r.push(*self);
        assert(r@ =~= seq![*self]);
        r
    }
}

impl MerkleLeaf for u16 {
    open spec fn spec_serialize(&self) -> Seq<u8> {
        le_bytes(*self as nat, 2)
    }

    open spec fn spec_accepts(data: Seq<u8>) -> bool {
        data.len() == 2
    }

    proof fn lemma_serialize_accepted(&self) {
        lemma_le_bytes_len(*self as nat, 2);
    }

    fn deserialize(data: &[u8]) -> (r: Result<Self, String>) {
        if data.len() != 2 {
            return Err("data.len() != size_of::<Self>()".to_owned());
        }
        let v = le_value_of(data);
        proof {
            lemma_le_value_bound(data@);
            reveal_with_fuel(pow256, 3);
            assert(pow256(2) == 65536);
            lemma_le_bytes_of_value(data@);
        }
        Ok(v as u16)
    }

    fn serialize(&self) -> (r: Vec<u8>) {
        le_bytes_vec(*self as u64, 2)
    }
}

impl MerkleLeaf for u32 {
    open spec fn spec_serialize(&self) -> Seq<u8> {
        le_bytes(*self as nat, 4)
    }

    open spec fn spec_accepts(data: Seq<u8>) -> bool {
        data.len() == 4
    }

    proof fn lemma_serialize_accepted(&self) {
        lemma_le_bytes_len(*self as nat, 4);
    }

    fn deserialize(data: &[u8]) -> (r: Result<Self, String>) {
        if data.len() != 4 {
            return Err("data.len() != size_of::<Self>()".to_owned());
        }
        let v = le_value_of(data);
        proof {
            lemma_le_value_bound(data@);
            reveal_with_fuel(pow256, 5);
            assert(pow256(4) == 0x1_0000_0000);
            lemma_le_bytes_of_value(data@);
        }
        Ok(v as u32)
    }

    fn serialize(&self) -> (r: Vec<u8>) {
        le_bytes_vec(*self as u64, 4)
    }
}

impl MerkleLeaf for u64 {
    open spec fn spec_serialize(&self) -> Seq<u8> {
        le_bytes(*self as nat, 8)
    }

    open spec fn spec_accepts(data: Seq<u8>) -> bool {
        data.len() == 8
    }

    proof fn lemma_serialize_accepted(&self) {
        lemma_le_bytes_len(*self as nat, 8);
    }

    fn deserialize(data: &[u8]) -> (r: Result<Self, String>) {
        if data.len() != 8 {
            return Err("data.len() != size_of::<Self>()".to_owned());
        }
        let v = le_value_of(data);
        proof {
            lemma_le_bytes_of_value(data@);
        }
        Ok(v)
    }

    fn serialize(&self) -> (r: Vec<u8>) {
        le_bytes_vec(*self, 8)
    }
}

impl MerkleLeaf for i8 {
    open spec fn spec_serialize(&self) -> Seq<u8> {
        <i8 as Nonce>::spec_serialize(self)
    }

    open spec fn spec_accepts(data: Seq<u8>) -> bool {
        data.len() == 1
    }

    proof fn lemma_serialize_accepted(&self) {
        lemma_le_bytes_len(twos_complement(*self as int, 256), 1);
    }

    fn deserialize(data: &[u8]) -> (r: Result<Self, String>) {
        if data.len() != 1 {
            return Err("data.len() != size_of::<Self>()".to_owned());
        }
        let mut cur = data;
        let v = <i8 as Nonce>::deserialize(&mut cur)?;
        proof {
            assert(data@.take(1) =~= data@);
            lemma_le_value_bound(data@);
            reveal_with_fuel(pow256, 2);
            assert(pow256(1) == 256);
            assert(twos_complement(v as int, 256) == le_value(data@));
            lemma_le_bytes_of_value(data@);
        }
        Ok(v)
    }

    fn serialize(&self) -> (r: Vec<u8>) {
        <i8 as Nonce>::serialize(self)
    }
}

impl MerkleLeaf for i16 {
    open spec fn spec_serialize(&self) -> Seq<u8> {
        <i16 as Nonce>::spec_serialize(self)
    }

    open spec fn spec_accepts(data: Seq<u8>) -> bool {
        data.len() == 2
    }

    proof fn lemma_serialize_accepted(&self) {
        lemma_le_bytes_len(twos_complement(*self as int, 65536), 2);
    }

    fn deserialize(data: &[u8]) -> (r: Result<Self, String>) {
        if data.len() != 2 {
            return Err("data.len() != size_of::<Self>()".to_owned());
        }
        let mut cur = data;
        let v = <i16 as Nonce>::deserialize(&mut cur)?;
        proof {
            assert(data@.take(2) =~= data@);
            lemma_le_value_bound(data@);
            reveal_with_fuel(pow256, 3);
            assert(pow256(2) == 65536);
            assert(twos_complement(v as int, 65536) == le_value(data@));
            lemma_le_bytes_of_value(data@);
        }
        Ok(v)
    }

    fn serialize(&self) -> (r: Vec<u8>) {
        <i16 as Nonce>::serialize(self)
    }
}

impl MerkleLeaf for i32 {
    open spec fn spec_serialize(&self) -> Seq<u8> {
        <i32 as Nonce>::spec_serialize(self)
    }

    open spec fn spec_accepts(data: Seq<u8>) -> bool {
        data.len() == 4
    }

    proof fn lemma_serialize_accepted(&self) {
        lemma_le_bytes_len(twos_complement(*self as int, 0x1_0000_0000), 4);
    }

    fn deserialize(data: &[u8]) -> (r: Result<Self, String>) {
        if data.len() != 4 {
            return Err("data.len() != size_of::<Self>()".to_owned());
        }
        let mut cur = data;
        let v = <i32 as Nonce>::deserialize(&mut cur)?;
        proof {
            assert(data@.take(4) =~= data@);
            lemma_le_value_bound(data@);
            reveal_with_fuel(pow256, 5);
            assert(pow256(4) == 0x1_0000_0000);
            assert(twos_complement(v as int, 0x1_0000_0000) == le_value(data@));
            lemma_le_bytes_of_value(data@);
        }
        Ok(v)
    }

    fn serialize(&self) -> (r: Vec<u8>) {
        <i32 as Nonce>::serialize(self)
    }
}

impl MerkleLeaf for i64 {
    open spec fn spec_serialize(&self) -> Seq<u8> {
        <i64 as Nonce>::spec_serialize(self)
    }

    open spec fn spec_accepts(data: Seq<u8>) -> bool {
        data.len() == 8
    }

    proof fn lemma_serialize_accepted(&self) {
        lemma_le_bytes_len(twos_complement(*self as int, 0x1_0000_0000_0000_0000), 8);
    }

    fn deserialize(data: &[u8]) -> (r: Result<Self, String>) {
        if data.len() != 8 {
            return Err("data.len() != size_of::<Self>()".to_owned());
        }
        let mut cur = data;
        let v = <i64 as Nonce>::deserialize(&mut cur)?;
        proof {
            assert(data@.take(8) =~= data@);
            lemma_le_value_bound(data@);
            reveal_with_fuel(pow256, 9);
            assert(pow256(8) == 0x1_0000_0000_0000_0000);
            assert(twos_complement(v as int, 0x1_0000_0000_0000_0000) == le_value(data@));
            lemma_le_bytes_of_value(data@);
        }
        Ok(v)
    }

    fn serialize(&self) -> (r: Vec<u8>) {
        <i64 as Nonce>::serialize(self)
    }
}

impl MerkleLeaf for bool {
    open spec fn spec_serialize(&self) -> Seq<u8> {
        seq![if *self { 1u8 } else { 0u8 }]
    }

    open spec fn spec_accepts(data: Seq<u8>) -> bool {
        data.len() == 1 && (data[0] == 0 || data[0] == 1)
    }

    proof fn lemma_serialize_accepted(&self) {
    }

    fn deserialize(data: &[u8]) -> (r: Result<Self, String>) {
        if data.len() != 1 {
            return Err("data.len() != size_of::<Self>()".to_owned());
        }
        if data[0] != 0 && data[0] != 1 {
            return Err("data[0] != 0 && data[0] != 1".to_owned());
        }
        assert(data@ =~= seq![data[0]]);
        Ok(data[0] != 0)
    }

    fn serialize(&self) -> (r: Vec<u8>) {
        let mut r = Vec::new();
        r.push(if *self { 1u8 } else { 0u8 });
        assert(r@ =~= seq![if *self { 1u8 } else { 0u8 }]);
        r
    }
}

// ---------------------------------------------------------------------------
// Tree shape
// ---------------------------------------------------------------------------

/// Whether `n` is a power of two.
pub open spec fn is_pow2(n: int) -> bool
    decreases n,
{
    if n <= 0 {
        false
    } else if n == 1 {
        true
    } else {
        n % 2 == 0 && is_pow2(n / 2)
    }
}

/// The smallest power of two, starting from `p`, that is at least `n`.
pub open spec fn npot_from(p: int, n: int) -> int
    decreases (if p < n { n - p } else { 0 }),
{
    if p <= 0 {
        1
    } else if p >= n {
        p
    } else {
        npot_from(2 * p, n)
    }
}

/// The smallest power of two that is at least `n`.
pub open spec fn npot(n: int) -> int {
    npot_from(1, n)
}

proof fn lemma_npot_from(p: int, n: int)
    requires
        is_pow2(p),
        p == 1 || p / 2 < n,
    ensures
        is_pow2(npot_from(p, n)),
        npot_from(p, n) >= n,
        npot_from(p, n) == 1 || npot_from(p, n) / 2 < n,
    decreases (if p < n { n - p } else { 0 }),
{
    if p < n {
        assert(is_pow2(2 * p)) by {
            assert((2 * p) / 2 == p);
        }
        lemma_npot_from(2 * p, n);
    }
}

/// The number of leaf slots of a tree of `n` elements is a power of two, at least `n`, and less
/// than `2 * n`.
pub proof fn lemma_npot(n: int)
    requires
        n >= 1,
    ensures
        is_pow2(npot(n)),
        npot(n) >= n,
        npot(n) < 2 * n,
{
    lemma_npot_from(1, n);
}

proof fn lemma_pow2_lt(a: int, b: int)
    requires
        is_pow2(a),
        is_pow2(b),
        a < b,
    ensures
        2 * a <= b,
    decreases b,
{
    assert(b >= 2);
    let h = b / 2;
    assert(is_pow2(h));
    if a < h {
        lemma_pow2_lt(a, h);
    } else if a > h {
        lemma_pow2_lt(h, a);
    }
}

/// The index of the element at the node `(path, mask)` of a tree of `length` elements, if the
/// node is a leaf.
pub open spec fn leaf_index(path: int, mask: int, length: int) -> Option<int> {
    let full = npot(length);
    if full >= 2 && mask == (full - 2) / 2 {
        if path < full - length {
            Some(path)
        } else {
            None
        }
    } else if mask == full - 1 {
        Some(path - (full - length))
    } else {
        None
    }
}

/// The hash of the node `(path, mask)` of the tree whose leaf data are `leaves`.
pub open spec fn node_hash(leaves: Seq<Seq<u8>>, path: int, mask: int) -> Seq<u8>
    decreases npot(leaves.len() as int) - mask,
{
    match leaf_index(path, mask, leaves.len() as int) {
        Some(i) => keccak256_spec(leaves[i]),
        None => if mask < 0 || 2 * mask + 2 > npot(leaves.len() as int) {
            seq![]
        } else {
            keccak256_spec(
                node_hash(leaves, 2 * path, 2 * mask + 1) + node_hash(leaves, 2 * path + 1, 2 * mask + 1),
            )
        },
    }
}

/// The root hash of the balanced tree whose leaf data are `leaves`.
pub open spec fn tree_root(leaves: Seq<Seq<u8>>) -> Seq<u8> {
    node_hash(leaves, 0, 0)
}

/// A node on the way from the root to a leaf of a tree of `length` elements.
pub open spec fn valid_node(path: int, mask: int, length: int) -> bool {
    &&& is_pow2(mask + 1)
    &&& mask < npot(length)
    &&& 0 <= path <= mask
    &&& (mask == npot(length) - 1 ==> path >= 2 * (npot(length) - length))
}

/// The largest number of elements a tree may hold.
pub open spec fn max_elements() -> int {
    0x4000_0000_0000_0000
}

fn next_power_of_two(n: u64) -> (r: u64)
    requires
        1 <= n <= max_elements(),
    ensures
        r == npot(n as int),
{
    let mut p: u64 = 1;
    while p < n
        invariant
            1 <= p <= 2 * max_elements(),
            1 <= n <= max_elements(),
            is_pow2(p as int),
            p == 1 || p / 2 < n,
            npot_from(p as int, n as int) == npot(n as int),
        decreases (if p < n { n - p } else { 0 }),
    {
        proof {
            assert(is_pow2(2 * p as int)) by {
                assert((2 * p as int) / 2 == p);
            }
        }
        p = 2 * p;
    }
    p
}

/// The node of the leaf holding element `index` of a tree of `length` elements.
pub open spec fn leaf_path(index: int, length: int) -> (int, int) {
    let full = npot(length);
    if index < full - length {
        (index, (full - 2) / 2)
    } else {
        (full - length + index, full - 1)
    }
}

// ---------------------------------------------------------------------------
// Trees
// ---------------------------------------------------------------------------

/// The leaf data of a tree: each element's representation, followed by its salt if salted.
pub open spec fn salted_leaves(elements: Seq<Seq<u8>>, salts: Option<Seq<Seq<u8>>>) -> Seq<Seq<u8>> {
    Seq::new(
        elements.len(),
        |i: int|
            match salts {
                Some(s) => elements[i] + s[i],
                None => elements[i],
            },
    )
}

/// Salts, when present, are one per element, all of the same positive size.
pub open spec fn salts_ok(length: int, salts: Option<Seq<Seq<u8>>>) -> bool {
    match salts {
        None => true,
        Some(s) => {
            &&& s.len() == length
            &&& length > 0
            &&& s[0].len() > 0
            &&& forall|i: int| 0 <= i < s.len() ==> #[trigger] s[i].len() == s[0].len()
        },
    }
}

/// The abstract content of a Merkle tree: the representations of its elements, their salts,
/// and the root hash.
pub struct MerkleTreeView {
    pub elements: Seq<Seq<u8>>,
    pub salts: Option<Seq<Seq<u8>>>,
    pub root: Seq<u8>,
}

impl MerkleTreeView {
    /// The leaf data of the tree.
    pub open spec fn leaves(self) -> Seq<Seq<u8>> {
        salted_leaves(self.elements, self.salts)
    }

    /// Well-formedness: a non-empty tree whose salts are consistent and whose root is the root
    /// hash of its leaves.
    pub open spec fn wf(self) -> bool {
        &&& 1 <= self.elements.len() <= max_elements()
        &&& salts_ok(self.elements.len() as int, self.salts)
        &&& self.root == tree_root(self.leaves())
    }
}

/// Balanced Merkle tree
pub struct MerkleTree<T: MerkleLeaf> {
    elements: Vec<T>,
    salts: Option<Vec<Vec<u8>>>,
    root: [u8; 32],
}

/// The representations of a sequence of elements.
pub open spec fn element_bytes<T: MerkleLeaf>(elements: Seq<T>) -> Seq<Seq<u8>> {
    elements.map_values(|e: T| e.spec_serialize())
}

/// The contents of a sequence of byte vectors.
pub open spec fn byte_vecs(v: Seq<Vec<u8>>) -> Seq<Seq<u8>> {
    v.map_values(|b: Vec<u8>| b@)
}

/// The contents of optional salts.
pub open spec fn salt_view(salts: Option<Vec<Vec<u8>>>) -> Option<Seq<Seq<u8>>> {
    match salts {
        Some(s) => Some(byte_vecs(s@)),
        None => None,
    }
}

impl<T: MerkleLeaf> View for MerkleTree<T> {
    type V = MerkleTreeView;

    closed spec fn view(&self) -> MerkleTreeView {
        MerkleTreeView {
            elements: element_bytes(self.elements@),
            salts: salt_view(self.salts),
            root: self.root@,
        }
    }
}

fn leaf_data<T: MerkleLeaf>(elements: &Vec<T>, salts: &Option<Vec<Vec<u8>>>, index: usize) -> (r: Vec<u8>)
    requires
        index < elements@.len(),
        salts_ok(elements@.len() as int, salt_view(*salts)),
    ensures
        r@ == salted_leaves(element_bytes(elements@), salt_view(*salts))[index as int],
{
    let mut data = elements[index].serialize();
    match salts {
        Some(s) => {
            data.extend_from_slice(s[index].as_slice());
        },
        None => {},
    }
    data
}

fn compute_node<T: MerkleLeaf>(
    elements: &Vec<T>,
    salts: &Option<Vec<Vec<u8>>>,
    full: u64,
    path: u64,
    mask: u64,
) -> (h: [u8; 32])
    requires
        1 <= elements@.len() <= max_elements(),
        salts_ok(elements@.len() as int, salt_view(*salts)),
        full == npot(elements@.len() as int),
        valid_node(path as int, mask as int, elements@.len() as int),
    ensures
        h@ == node_hash(salted_leaves(element_bytes(elements@), salt_view(*salts)), path as int, mask as int),
    decreases full - mask,
{
    let length = elements.len() as u64;
    let ghost leaves = salted_leaves(element_bytes(elements@), salt_view(*salts));
    proof {
        lemma_npot(length as int);
        assert(leaves.len() == length);
    }
    if full >= 2 && mask == (full - 2) / 2 && path < full - length {
        let data = leaf_data(elements, salts, path as usize);
        return keccak256(data.as_slice());
    }
    if mask == full - 1 {
        let data = leaf_data(elements, salts, (path - (full - length)) as usize);
        return keccak256(data.as_slice());
    }
    proof {
        assert(leaf_index(path as int, mask as int, length as int) is None);
        lemma_pow2_lt(mask + 1, full as int);
        assert(is_pow2(2 * mask + 2)) by {
            assert((2 * mask + 2) / 2 == mask + 1);
        }
        if 2 * mask + 1 == full - 1 {
            assert(mask == (full - 2) / 2);
        }
    }
    let left = compute_node(elements, salts, full, 2 * path, 2 * mask + 1);
    let right = compute_node(elements, salts, full, 2 * path + 1, 2 * mask + 1);
    let mut both = vstd::slice::slice_to_vec(left.as_slice());
    both.extend_from_slice(right.as_slice());
    assert(both@ =~= left@ + right@);
    assert(2 * mask + 2 <= full);
    keccak256(both.as_slice())
}

fn compute_tree_root<T: MerkleLeaf>(elements: &Vec<T>, salts: &Option<Vec<Vec<u8>>>) -> (h: [u8; 32])
    requires
        1 <= elements@.len() <= max_elements(),
        salts_ok(elements@.len() as int, salt_view(*salts)),
    ensures
        h@ == tree_root(salted_leaves(element_bytes(elements@), salt_view(*salts))),
{
    let full = next_power_of_two(elements.len() as u64);
    proof {
        lemma_npot(elements@.len() as int);
        assert(is_pow2(1));
    }
    compute_node(elements, salts, full, 0, 0)
}

impl<T: MerkleLeaf> MerkleTree<T> {
    #[verifier::type_invariant]
    spec fn inv(self) -> bool {
        self@.wf()
    }

    /// Constructs an unsalted Merkle tree from a vector.
    ///
    /// `elements` must not be empty.
    pub fn new(elements: Vec<T>) -> (tree: Self)
        requires
            1 <= elements@.len() <= max_elements(),
        ensures
            tree@.elements == element_bytes(elements@),
            tree@.salts is None,
            tree@.root == tree_root(tree@.leaves()),
    {
        let salts: Option<Vec<Vec<u8>>> = None;
        let root = compute_tree_root(&elements, &salts);
        MerkleTree { elements, salts, root }
    }

    /// Constructs a salted Merkle tree from a vector and `salt_size` bytes of salt per element.
    ///
    /// With `salt_size == 0` the tree is unsalted; otherwise element `i` is salted with bytes
    /// `i * salt_size .. (i + 1) * salt_size` of `salt`.
    pub fn with_salt_bytes(elements: Vec<T>, salt_size: usize, salt: &[u8]) -> (tree: Self)
        requires
            1 <= elements@.len() <= max_elements(),
            salt@.len() == elements@.len() * salt_size,
        ensures
            tree@.elements == element_bytes(elements@),
            salt_size == 0 ==> tree@.salts is None,
            salt_size > 0 ==> tree@.salts == Some(Seq::new(
                elements@.len(),
                |i: int| salt@.subrange(i * salt_size, (i + 1) * salt_size),
            )),
            tree@.root == tree_root(tree@.leaves()),
    {
        if salt_size == 0 {
            return Self::new(elements);
        }
        let n = elements.len();
        let mut salts: Vec<Vec<u8>> = Vec::new();
        let mut i: usize = 0;
        let ghost expected = Seq::new(n as nat, |k: int| salt@.subrange(k * salt_size, (k + 1) * salt_size));
        while i < n
            invariant
                i <= n,
                salt@.len() == n * salt_size,
                salt_size > 0,
                salts@.len() == i,
                expected == Seq::new(n as nat, |k: int| salt@.subrange(k * salt_size, (k + 1) * salt_size)),
                forall|k: int| 0 <= k < i ==> #[trigger] salts@[k]@ == expected[k],
            decreases n - i,
        {
            proof {
                assert((i + 1) * salt_size <= n * salt_size) by (nonlinear_arith)
                    requires i + 1 <= n;
                assert(i * salt_size + salt_size == (i + 1) * salt_size) by (nonlinear_arith);
                assert(salt@.len() == salt.len());
            }
            let chunk = vstd::slice::slice_to_vec(&salt[i * salt_size..(i + 1) * salt_size]);
            salts.push(chunk);
            i = i + 1;
        }
        proof {
            assert(byte_vecs(salts@) =~= expected);
            assert forall|k: int| 0 <= k < n implies #[trigger] expected[k].len() == salt_size by {
                assert(k * salt_size + salt_size == (k + 1) * salt_size) by (nonlinear_arith);
                assert((k + 1) * salt_size <= n * salt_size) by (nonlinear_arith)
                    requires k + 1 <= n;
                assert(0 <= k * salt_size) by (nonlinear_arith)
                    requires 0 <= k;
            }
            assert(expected[0].len() == salt_size);
        }
        let salts = Some(salts);
        let root = compute_tree_root(&elements, &salts);
        MerkleTree { elements, salts, root }
    }

    /// Gets the elements in the Merkle tree.
    pub fn elements(&self) -> (r: &Vec<T>)
        ensures
            element_bytes(r@) == self@.elements,
    {
        &self.elements
    }

    /// `true` if the Merkle tree is empty.
    pub fn is_empty(&self) -> (r: bool)
        ensures
            r == (self@.elements.len() == 0),
    {
        self.elements.len() == 0
    }

    /// Gets the number of elements in the Merkle tree.
    pub fn len(&self) -> (r: usize)
        ensures
            r == self@.elements.len(),
    {
        self.elements.len()
    }

    /// Gets the root hash of the Merkle tree.
    pub fn root(&self) -> (r: &[u8; 32])
        ensures
            r@ == self@.root,
            r@ == tree_root(self@.leaves()),
    {
        proof {
            use_type_invariant(self);
        }
        &self.root
    }
}

// ---------------------------------------------------------------------------
// Proofs
// ---------------------------------------------------------------------------

/// The hash of a node's parent, given the node's hash `cur`, its path `p` and its sibling's
/// hash `sibling`.
pub open spec fn parent_hash(cur: Seq<u8>, p: int, sibling: Seq<u8>) -> Seq<u8> {
    if p % 2 == 0 {
        keccak256_spec(cur + sibling)
    } else {
        keccak256_spec(sibling + cur)
    }
}

/// The root reached by climbing from the node `(p, m)` with hash `cur` through the sibling
/// hashes `hashes`, or `None` when their number does not match the node's depth.
pub open spec fn climb(cur: Seq<u8>, p: int, m: int, hashes: Seq<Seq<u8>>) -> Option<Seq<u8>>
    decreases hashes.len(),
{
    if hashes.len() == 0 {
        if m == 0 {
            Some(cur)
        } else {
            None
        }
    } else if m == 0 {
        None
    } else {
        climb(parent_hash(cur, p, hashes[0]), p / 2, m / 2, hashes.drop_first())
    }
}

/// The root hash that a Merkle proof of leaf data `leaf` at `index` in a tree of `length`
/// elements with sibling hashes `hashes` attests to, or `None` when the proof is malformed.
pub open spec fn proof_root(leaf: Seq<u8>, index: int, length: int, hashes: Seq<Seq<u8>>) -> Option<Seq<u8>> {
    climb(keccak256_spec(leaf), leaf_path(index, length).0, leaf_path(index, length).1, hashes)
}

/// The sibling of the node at path `p`.
pub open spec fn sibling(p: int) -> int {
    if p % 2 == 0 { p + 1 } else { p - 1 }
}

/// The hashes of the siblings of the nodes from `(p, m)` up to, not including, the root.
pub open spec fn path_siblings(leaves: Seq<Seq<u8>>, p: int, m: int) -> Seq<Seq<u8>>
    decreases m,
{
    if m <= 0 {
        seq![]
    } else {
        seq![node_hash(leaves, sibling(p), m)] + path_siblings(leaves, p / 2, m / 2)
    }
}

/// The contents of a sequence of hashes.
pub open spec fn hash_views(hashes: Seq<[u8; 32]>) -> Seq<Seq<u8>> {
    hashes.map_values(|h: [u8; 32]| h@)
}

proof fn lemma_pow2_half(m: int)
    requires
        m >= 1,
        is_pow2(m + 1),
    ensures
        m % 2 == 1,
        is_pow2(m / 2 + 1),
{
    assert((m + 1) % 2 == 0);
    assert((m + 1) / 2 == m / 2 + 1);
}

proof fn lemma_climb(leaves: Seq<Seq<u8>>, p: int, m: int)
    requires
        leaves.len() >= 1,
        valid_node(p, m, leaves.len() as int),
    ensures
        climb(node_hash(leaves, p, m), p, m, path_siblings(leaves, p, m)) == Some(tree_root(leaves)),
    decreases m,
{
    let length = leaves.len() as int;
    let full = npot(length);
    lemma_npot(length);
    if m == 0 {
        assert(p == 0);
    } else {
        lemma_pow2_half(m);
        let q = p / 2;
        let h = m / 2;
        let sib = node_hash(leaves, sibling(p), m);
        let cur = node_hash(leaves, p, m);
        if m + 1 < full {
            lemma_pow2_lt(m + 1, full);
        }
        assert(leaf_index(q, h, length) is None) by {
            if full >= 2 && h == (full - 2) / 2 {
                assert(m == full - 1);
            }
        }
        assert(2 * h + 1 == m);
        assert(2 * h + 2 <= full);
        assert(node_hash(leaves, q, h) == keccak256_spec(
            node_hash(leaves, 2 * q, m) + node_hash(leaves, 2 * q + 1, m),
        ));
        assert(node_hash(leaves, q, h) == parent_hash(cur, p, sib));
        assert(path_siblings(leaves, p, m).drop_first() =~= path_siblings(leaves, q, h));
        lemma_climb(leaves, q, h);
    }
}

proof fn lemma_leaf_path(length: int, i: int)
    requires
        1 <= length,
        0 <= i < length,
    ensures
        valid_node(leaf_path(i, length).0, leaf_path(i, length).1, length),
        leaf_index(leaf_path(i, length).0, leaf_path(i, length).1, length) == Some(i),
{
    let full = npot(length);
    lemma_npot(length);
    if i < full - length {
        assert(full >= 2);
        assert(is_pow2(full / 2));
        assert((full - 2) / 2 + 1 == full / 2);
    }
}

/// A Merkle proof built from a tree's sibling hashes attests to the tree's root: for every
/// element, climbing from its leaf through the hashes of the siblings on its path gives the root.
pub proof fn lemma_proof_root(leaves: Seq<Seq<u8>>, i: int)
    requires
        1 <= leaves.len(),
        0 <= i < leaves.len(),
    ensures
        proof_root(
            leaves[i],
            i,
            leaves.len() as int,
            path_siblings(leaves, leaf_path(i, leaves.len() as int).0, leaf_path(i, leaves.len() as int).1),
        ) == Some(tree_root(leaves)),
{
    let length = leaves.len() as int;
    lemma_leaf_path(length, i);
    lemma_climb(leaves, leaf_path(i, length).0, leaf_path(i, length).1);
}

/// The number of times `m` can be halved before it reaches zero: the depth below the root of a
/// node whose level mask is `m`.
pub open spec fn levels(m: int) -> nat
    decreases m,
{
    if m <= 0 {
        0
    } else {
        1 + levels(m / 2)
    }
}

/// Two to the power `k`.
pub open spec fn two_to(k: nat) -> int
    decreases k,
{
    if k == 0 {
        1
    } else {
        2 * two_to((k - 1) as nat)
    }
}

proof fn lemma_path_siblings_len(leaves: Seq<Seq<u8>>, p: int, m: int)
    ensures
        path_siblings(leaves, p, m).len() == levels(m),
    decreases m,
{
    if m > 0 {
        lemma_path_siblings_len(leaves, p / 2, m / 2);
    }
}

proof fn lemma_levels_pow2(full: int)
    requires
        is_pow2(full),
    ensures
        two_to(levels(full - 1)) == full,
        full >= 2 ==> levels(full / 2 - 1) + 1 == levels(full - 1),
    decreases full,
{
    if full >= 2 {
        assert((full - 1) / 2 == full / 2 - 1);
        lemma_levels_pow2(full / 2);
    }
}

/// The number of hashes in the proof of element `i` of a tree of `n` elements: with `K` the
/// exponent of the tree's number of leaf slots (the smallest power of two at least `n`), the
/// first `2^K - n` elements sit one level up and carry `K - 1` hashes, the others `K`.
pub proof fn lemma_proof_hash_count(leaves: Seq<Seq<u8>>, i: int)
    requires
        1 <= leaves.len(),
        0 <= i < leaves.len(),
    ensures
        two_to(levels(npot(leaves.len() as int) - 1)) == npot(leaves.len() as int),
        path_siblings(leaves, leaf_path(i, leaves.len() as int).0, leaf_path(i, leaves.len() as int).1).len()
            == if i < npot(leaves.len() as int) - leaves.len() {
                levels(npot(leaves.len() as int) - 1) - 1
            } else {
                levels(npot(leaves.len() as int) - 1) as int
            },
{
    let n = leaves.len() as int;
    let full = npot(n);
    lemma_npot(n);
    lemma_levels_pow2(full);
    let (p, m) = leaf_path(i, n);
    lemma_path_siblings_len(leaves, p, m);
    if i < full - n {
        assert((full - 2) / 2 == full / 2 - 1);
    }
}

/// The proofs of any two elements of a tree carry numbers of hashes that differ by at most one.
pub proof fn lemma_proof_hash_counts_close(leaves: Seq<Seq<u8>>, i: int, j: int)
    requires
        1 <= leaves.len(),
        0 <= i < leaves.len(),
        0 <= j < leaves.len(),
    ensures
        ({
            let n = leaves.len() as int;
            let a = path_siblings(leaves, leaf_path(i, n).0, leaf_path(i, n).1).len() as int;
            let b = path_siblings(leaves, leaf_path(j, n).0, leaf_path(j, n).1).len() as int;
            -1 <= a - b <= 1
        }),
{
    lemma_proof_hash_count(leaves, i);
    lemma_proof_hash_count(leaves, j);
}

/// The root of a one-element tree is the digest of its leaf data, and a salted element's leaf
/// data is its representation followed by its salt.
pub proof fn lemma_one_leaf_root(e: Seq<u8>, salt: Seq<u8>)
    ensures
        tree_root(seq![e]) == keccak256_spec(e),
        tree_root(salted_leaves(seq![e], Some(seq![salt]))) == keccak256_spec(e + salt),
{
    reveal_with_fuel(npot_from, 2);
    assert(npot(1) == 1);
    assert(salted_leaves(seq![e], Some(seq![salt])) =~= seq![e + salt]);
}

/// The root of a two-element tree `[a, b]` is the digest of `a`'s digest followed by `b`'s: an
/// inner node hashes its left child's hash, then its right child's.
pub proof fn lemma_two_leaf_root(a: Seq<u8>, b: Seq<u8>)
    ensures
        tree_root(seq![a, b]) == keccak256_spec(keccak256_spec(a) + keccak256_spec(b)),
{
    reveal_with_fuel(npot_from, 3);
    reveal_with_fuel(node_hash, 3);
    let l = seq![a, b];
    assert(npot(2) == 2);
    assert(node_hash(l, 0, 1) == keccak256_spec(a));
    assert(node_hash(l, 1, 1) == keccak256_spec(b));
}

/// The root of a three-element tree `[a, b, c]`: `a` sits one level up, on the left, and `b` and
/// `c` share the right subtree, in order.
pub proof fn lemma_three_leaf_root(a: Seq<u8>, b: Seq<u8>, c: Seq<u8>)
    ensures
        tree_root(seq![a, b, c]) == keccak256_spec(
            keccak256_spec(a) + keccak256_spec(keccak256_spec(b) + keccak256_spec(c)),
        ),
{
    reveal_with_fuel(npot_from, 4);
    reveal_with_fuel(node_hash, 4);
    let l = seq![a, b, c];
    assert(npot(3) == 4);
    assert(node_hash(l, 2, 3) == keccak256_spec(b));
    assert(node_hash(l, 3, 3) == keccak256_spec(c));
    assert(node_hash(l, 1, 1) == keccak256_spec(keccak256_spec(b) + keccak256_spec(c)));
    assert(node_hash(l, 0, 1) == keccak256_spec(a));
}

/// The root of a four-element tree `[a, b, c, d]` hashes the pairs `(a, b)` and `(c, d)`, each
/// left first, then the two pair hashes, left first.
pub proof fn lemma_four_leaf_root(a: Seq<u8>, b: Seq<u8>, c: Seq<u8>, d: Seq<u8>)
    ensures
        tree_root(seq![a, b, c, d]) == keccak256_spec(
            keccak256_spec(keccak256_spec(a) + keccak256_spec(b)) + keccak256_spec(
                keccak256_spec(c) + keccak256_spec(d),
            ),
        ),
{
    reveal_with_fuel(npot_from, 4);
    reveal_with_fuel(node_hash, 4);
    let l = seq![a, b, c, d];
    assert(npot(4) == 4);
    assert(node_hash(l, 0, 3) == keccak256_spec(a));
    assert(node_hash(l, 1, 3) == keccak256_spec(b));
    assert(node_hash(l, 2, 3) == keccak256_spec(c));
    assert(node_hash(l, 3, 3) == keccak256_spec(d));
    assert(node_hash(l, 0, 1) == keccak256_spec(keccak256_spec(a) + keccak256_spec(b)));
    assert(node_hash(l, 1, 1) == keccak256_spec(keccak256_spec(c) + keccak256_spec(d)));
}

/// Climbing a proof one level: a node with an even path is the left child, so its hash comes
/// before its sibling's; a node with an odd path is the right child, so its hash comes after.
pub proof fn lemma_climb_step(cur: Seq<u8>, p: int, m: int, hashes: Seq<Seq<u8>>)
    requires
        hashes.len() >= 1,
        m != 0,
    ensures
        climb(cur, p, m, hashes) == climb(
            if p % 2 == 0 {
                keccak256_spec(cur + hashes[0])
            } else {
                keccak256_spec(hashes[0] + cur)
            },
            p / 2,
            m / 2,
            hashes.drop_first(),
        ),
{
}

/// In a two-element tree, the proof of the first element with sibling hash `h` attests to the
/// digest of the element's digest followed by `h`, and the proof of the second to the digest of
/// `h` followed by the element's digest.
pub proof fn lemma_two_leaf_proofs(a: Seq<u8>, b: Seq<u8>, h: Seq<u8>)
    ensures
        proof_root(a, 0, 2, seq![h]) == Some(keccak256_spec(keccak256_spec(a) + h)),
        proof_root(b, 1, 2, seq![h]) == Some(keccak256_spec(h + keccak256_spec(b))),
{
    reveal_with_fuel(npot_from, 3);
    assert(npot(2) == 2);
    assert(leaf_path(0, 2) == (0int, 1int));
    assert(leaf_path(1, 2) == (1int, 1int));
    let hs = seq![h];
    assert(hs.drop_first() =~= Seq::<Seq<u8>>::empty());
    let ka = keccak256_spec(a);
    let kb = keccak256_spec(b);
    assert(climb(ka, 0, 1, hs) == climb(keccak256_spec(ka + h), 0, 0, hs.drop_first()));
    assert(climb(keccak256_spec(ka + h), 0, 0, Seq::<Seq<u8>>::empty()) == Some(keccak256_spec(ka + h)));
    assert(climb(kb, 1, 1, hs) == climb(keccak256_spec(h + kb), 0, 0, hs.drop_first()));
    assert(climb(keccak256_spec(h + kb), 0, 0, Seq::<Seq<u8>>::empty()) == Some(keccak256_spec(h + kb)));
}

/// The abstract content of a Merkle proof.
pub struct MerkleProofView {
    pub element: Seq<u8>,
    pub salt: Option<Seq<u8>>,
    pub index: int,
    pub length: int,
    pub hashes: Seq<Seq<u8>>,
    pub root: Seq<u8>,
}

/// The leaf data of a proof's element: its representation, followed by its salt if salted.
pub open spec fn salted_leaf(element: Seq<u8>, salt: Option<Seq<u8>>) -> Seq<u8> {
    match salt {
        Some(s) => element + s,
        None => element,
    }
}

impl MerkleProofView {
    /// Well-formedness: the salt, if any, is not empty, and the root is the one the proof
    /// attests to.
    pub open spec fn wf(self) -> bool {
        &&& (self.salt matches Some(s) ==> s.len() > 0)
        &&& 0 <= self.index <= max_elements()
        &&& 0 <= self.length <= max_elements()
        &&& proof_root(salted_leaf(self.element, self.salt), self.index, self.length, self.hashes)
            == Some(self.root)
        &&& forall|i: int| 0 <= i < self.hashes.len() ==> (#[trigger] self.hashes[i]).len() == 32
    }
}

/// Merkle proof
pub struct MerkleProof<T: MerkleLeaf> {
    element: T,
    salt: Option<Vec<u8>>,
    index: usize,
    length: usize,
    hashes: Vec<[u8; 32]>,
    root: [u8; 32],
}

/// The contents of an optional salt.
pub open spec fn opt_bytes(salt: Option<Vec<u8>>) -> Option<Seq<u8>> {
    match salt {
        Some(s) => Some(s@),
        None => None,
    }
}

impl<T: MerkleLeaf> View for MerkleProof<T> {
    type V = MerkleProofView;

    closed spec fn view(&self) -> MerkleProofView {
        MerkleProofView {
            element: self.element.spec_serialize(),
            salt: opt_bytes(self.salt),
            index: self.index as int,
            length: self.length as int,
            hashes: hash_views(self.hashes@),
            root: self.root@,
        }
    }
}

fn concat_hashes(a: &[u8; 32], b: &[u8; 32]) -> (r: Vec<u8>)
    ensures
        r@ == a@ + b@,
{
    let mut r = vstd::slice::slice_to_vec(a.as_slice());
    r.extend_from_slice(b.as_slice());
    assert(r@ =~= a@ + b@);
    r
}

fn compute_proof_root(leaf: &[u8], index: usize, length: usize, hashes: &Vec<[u8; 32]>) -> (r: Result<[u8; 32], String>)
    requires
        index <= max_elements(),
        length <= max_elements(),
        !(length == 0 && index == 0),
    ensures
        match r {
            Ok(h) => proof_root(leaf@, index as int, length as int, hash_views(hashes@)) == Some(h@),
            Err(_) => proof_root(leaf@, index as int, length as int, hash_views(hashes@)) is None,
        },
{
    let mut root = keccak256(leaf);
    let full: u64 = if length == 0 { 1 } else { next_power_of_two(length as u64) };
    proof {
        if length >= 1 {
            lemma_npot(length as int);
        }
    }
    let len64 = length as u64;
    let idx64 = index as u64;
    let (mut path, mut mask): (u64, u64) = if idx64 < full - len64 {
        (idx64, (full - 2) / 2)
    } else {
        (full - len64 + idx64, full - 1)
    };
    let ghost all = hash_views(hashes@);
    let ghost target = proof_root(leaf@, index as int, length as int, all);
    assert(all.skip(0) =~= all);
    assert(path as int == leaf_path(index as int, length as int).0);
    assert(mask as int == leaf_path(index as int, length as int).1);
    assert(target == climb(root@, path as int, mask as int, all.skip(0)));
    let mut k: usize = 0;
    while k < hashes.len()
        invariant
            k <= hashes@.len(),
            all == hash_views(hashes@),
            climb(root@, path as int, mask as int, all.skip(k as int)) == target,
            target == proof_root(leaf@, index as int, length as int, all),
            path <= 0x8000_0000_0000_0000,
            mask <= 0x8000_0000_0000_0000,
        decreases hashes@.len() - k,
    {
        if mask == 0 {
            proof {
                assert(all.skip(k as int).len() > 0);
            }
            return Err("path.mask == 0".to_owned());
        }
        let both = if path % 2 == 0 {
            concat_hashes(&root, &hashes[k])
        } else {
            concat_hashes(&hashes[k], &root)
        };
        proof {
            assert(all.skip(k as int)[0] == hashes@[k as int]@);
            assert(all.skip(k as int).drop_first() =~= all.skip(k + 1));
        }
        root = keccak256(both.as_slice());
        path = path / 2;
        mask = mask / 2;
        k = k + 1;
    }
    if mask != 0 {
        return Err("path.mask != 0".to_owned());
    }
    Ok(root)
}

impl<T: MerkleLeaf> MerkleProof<T> {
    #[verifier::type_invariant]
    spec fn inv(self) -> bool {
        self@.wf()
    }

    /// Gets the element of the Merkle proof.
    pub fn element(&self) -> (r: &T)
        ensures
            r.spec_serialize() == self@.element,
    {
        &self.element
    }

    /// Gets the index of the element in the Merkle tree.
    pub fn index(&self) -> (r: usize)
        ensures
            r == self@.index,
    {
        self.index
    }

    /// Gets the length of the Merkle tree.
    pub fn length(&self) -> (r: usize)
        ensures
            r == self@.length,
    {
        self.length
    }

    /// Gets the root hash of the Merkle proof.
    pub fn root(&self) -> (r: &[u8; 32])
        ensures
            r@ == self@.root,
            proof_root(salted_leaf(self@.element, self@.salt), self@.index, self@.length, self@.hashes)
                == Some(r@),
    {
        proof {
            use_type_invariant(self);
        }
        &self.root
    }
}

/// A copy of an element, obtained through its binary representation.
fn copy_leaf<T: MerkleLeaf>(element: &T) -> (r: T)
    ensures
        r.spec_serialize() == element.spec_serialize(),
{
    let data = element.serialize();
    proof {
        element.lemma_serialize_accepted();
    }
    match T::deserialize(data.as_slice()) {
        Ok(v) => v,
        Err(_) => vstd::pervasive::unreached(),
    }
}

impl<T: MerkleLeaf> MerkleTree<T> {
    /// Generates a Merkle proof for the element at the given index.
    ///
    /// Fails exactly when `index` is not below the number of elements. The proof holds the
    /// element, its salt, and the hashes of the siblings of the nodes on the element's path, and
    /// its root is the tree's root.
    pub fn proof_at(&self, index: usize) -> (r: Result<MerkleProof<T>, String>)
        ensures
            r is Ok <==> index < self@.elements.len(),
            r matches Ok(p) ==> {
                &&& p@.element == self@.elements[index as int]
                &&& p@.salt == (match self@.salts {
                    Some(s) => Some(s[index as int]),
                    None => None,
                })
                &&& p@.index == index
                &&& p@.length == self@.elements.len()
                &&& p@.hashes == path_siblings(
                    self@.leaves(),
                    leaf_path(index as int, self@.elements.len() as int).0,
                    leaf_path(index as int, self@.elements.len() as int).1,
                )
                &&& p@.root == self@.root
            },
    {
        proof {
            use_type_invariant(self);
        }
        let length = self.elements.len();
        if index >= length {
            return Err("index >= self.len()".to_owned());
        }
        let ghost leaves = self@.leaves();
        let full = next_power_of_two(length as u64);
        proof {
            lemma_npot(length as int);
            lemma_leaf_path(length as int, index as int);
        }
        let len64 = length as u64;
        let idx64 = index as u64;
        let (mut path, mut mask): (u64, u64) = if idx64 < full - len64 {
            (idx64, (full - 2) / 2)
        } else {
            (full - len64 + idx64, full - 1)
        };
        let ghost start = path_siblings(leaves, path as int, mask as int);
        let mut hashes: Vec<[u8; 32]> = Vec::new();
        while mask != 0
            invariant
                leaves == salted_leaves(element_bytes(self.elements@), salt_view(self.salts)),
                leaves.len() == length,
                1 <= length <= max_elements(),
                full == npot(length as int),
                salts_ok(length as int, salt_view(self.salts)),
                valid_node(path as int, mask as int, length as int),
                hash_views(hashes@) + path_siblings(leaves, path as int, mask as int) == start,
            decreases mask,
        {
            proof {
                lemma_pow2_half(mask as int);
            }
            let sib = if path % 2 == 0 { path + 1 } else { path - 1 };
            let h = compute_node(&self.elements, &self.salts, full, sib, mask);
            let ghost before = hashes@;
            hashes.push(h);
            proof {
                lemma_npot(length as int);
                assert(hash_views(hashes@) =~= hash_views(before).push(h@));
                assert(path_siblings(leaves, path as int, mask as int) == seq![h@] + path_siblings(
                    leaves,
                    (path / 2) as int,
                    (mask / 2) as int,
                ));
                assert(hash_views(hashes@) + path_siblings(leaves, (path / 2) as int, (mask / 2) as int)
                    =~= hash_views(before) + path_siblings(leaves, path as int, mask as int));
                if mask / 2 == full - 1 {
                    assert(false);
                }
            }
            path = path / 2;
            mask = mask / 2;
        }
        proof {
            assert(hash_views(hashes@) =~= start);
        }
        let element = copy_leaf(&self.elements[index]);
        let salt: Option<Vec<u8>> = match &self.salts {
            Some(salts) => Some(vstd::slice::slice_to_vec(salts[index].as_slice())),
            None => None,
        };
        let leaf = leaf_data(&self.elements, &self.salts, index);
        proof {
            lemma_proof_root(leaves, index as int);
            assert(leaf@ == salted_leaf(element.spec_serialize(), opt_bytes(salt)));
        }
        let root = match compute_proof_root(leaf.as_slice(), index, length, &hashes) {
            Ok(root) => root,
            Err(e) => return Err(e),
        };
        Ok(MerkleProof { element, salt, index, length, hashes, root })
    }
}

// ---------------------------------------------------------------------------
// Tree binary representation
// ---------------------------------------------------------------------------


/// The binary representation of a tree: its number of elements as four little-endian bytes,
/// each element's representation preceded by its length, then all salts in order.
pub open spec fn tree_bytes(v: MerkleTreeView) -> Seq<u8> {
    le_u32_bytes(v.elements.len() as int) + concat_framed(v.elements) + match v.salts {
        Some(s) => concat_all(s),
        None => seq![],
    }
}

/// Whether a tree's binary representation exists: every length fits in 32 bits.
pub open spec fn tree_serializable(v: MerkleTreeView) -> bool {
    &&& v.elements.len() <= u32::MAX
    &&& forall|i: int| 0 <= i < v.elements.len() ==> (#[trigger] v.elements[i]).len() <= u32::MAX
}

/// The element representations and salts read from a tree's binary representation.
///
/// The bytes after the elements are split into one salt per element; none means unsalted.
pub open spec fn parse_tree(data: Seq<u8>) -> Option<(Seq<Seq<u8>>, Option<Seq<Seq<u8>>>)> {
    if data.len() < 4 {
        None
    } else {
        let length = le_u32_value(data);
        match parse_framed(data.skip(4), length as nat) {
            None => None,
            Some((elements, rest)) => if length == 0 || (rest.len() as int) % length != 0 {
                None
            } else if rest.len() == 0 {
                Some((elements, None))
            } else {
                Some((elements, Some(chunks(rest, length, (rest.len() as int) / length))))
            },
        }
    }
}

/// The tree read from a binary representation, when its elements are representations of `T`.
pub open spec fn tree_from_bytes<T: MerkleLeaf>(data: Seq<u8>) -> Option<MerkleTreeView> {
    match parse_tree(data) {
        None => None,
        Some((elements, salts)) => if forall|i: int|
            0 <= i < elements.len() ==> T::spec_accepts(#[trigger] elements[i]) {
            Some(
                MerkleTreeView {
                    elements,
                    salts,
                    root: tree_root(salted_leaves(elements, salts)),
                },
            )
        } else {
            None
        },
    }
}



/// Reading back a tree's binary representation gives its elements and salts.
pub proof fn lemma_tree_bytes_roundtrip(v: MerkleTreeView)
    requires
        v.wf(),
        tree_serializable(v),
    ensures
        parse_tree(tree_bytes(v)) == Some((v.elements, v.salts)),
{
    let length = v.elements.len() as int;
    let salt_bytes = match v.salts {
        Some(s) => concat_all(s),
        None => seq![],
    };
    let data = tree_bytes(v);
    lemma_le_u32_roundtrip(length);
    assert(data =~= le_u32_bytes(length) + (concat_framed(v.elements) + salt_bytes));
    assert(data.skip(4) =~= concat_framed(v.elements) + salt_bytes);
    assert(le_u32_value(data) == length);
    lemma_parse_framed_roundtrip(v.elements, salt_bytes);
    match v.salts {
        Some(s) => {
            let size = s[0].len() as int;
            lemma_concat_uniform(s, size);
            assert(salt_bytes.len() == length * size);
            assert((salt_bytes.len() as int) % length == 0 && (salt_bytes.len() as int) / length == size) by (nonlinear_arith)
                requires salt_bytes.len() as int == length * size, length >= 1, size >= 1;
        },
        None => {},
    }
}


impl<T: MerkleLeaf> MerkleTree<T> {
    /// Generates a binary representation that can be used to reconstruct the Merkle tree.
    ///
    /// See [MerkleTree::deserialize].
    pub fn serialize(&self) -> (r: Vec<u8>)
        requires
            tree_serializable(self@),
        ensures
            r@ == tree_bytes(self@),
            tree_from_bytes::<T>(r@) == Some(self@),
    {
        proof {
            use_type_invariant(self);
            assert forall|i: int| 0 <= i < self@.elements.len() implies T::spec_accepts(#[trigger] self@.elements[i]) by {
                self.elements@[i].lemma_serialize_accepted();
            }
            lemma_tree_roundtrip::<T>(self@);
        }
        let mut data: Vec<u8> = Vec::new();
        let _ = write_u32_usize(&mut data, self.elements.len());
        let ghost head = data@;
        let mut i: usize = 0;
        while i < self.elements.len()
            invariant
                i <= self.elements@.len(),
                tree_serializable(self@),
                self@.elements == element_bytes(self.elements@),
                data@ == head + concat_framed(self@.elements.take(i as int)),
            decreases self.elements@.len() - i,
        {
            let element = self.elements[i].serialize();
            assert(self@.elements[i as int].len() <= u32::MAX);
            let _ = write_framed(&mut data, element.as_slice());
            proof {
                assert(self@.elements.take(i + 1) =~= self@.elements.take(i as int).push(element@));
                lemma_concat_framed_push(self@.elements.take(i as int), element@);
            }
            i = i + 1;
        }
        proof {
            assert(self@.elements.take(i as int) =~= self@.elements);
        }
        let ghost body = data@;
        match &self.salts {
            Some(salts) => {
                let mut j: usize = 0;
                while j < salts.len()
                    invariant
                        j <= salts@.len(),
                        self@.salts == Some(byte_vecs(salts@)),
                        data@ == body + concat_all(byte_vecs(salts@).take(j as int)),
                    decreases salts@.len() - j,
                {
                    data.extend_from_slice(salts[j].as_slice());
                    proof {
                        let sv = byte_vecs(salts@);
                        assert(sv.take(j + 1) =~= sv.take(j as int).push(salts@[j as int]@));
                        lemma_concat_all_push(sv.take(j as int), salts@[j as int]@);
                    }
                    j = j + 1;
                }
                proof {
                    assert(byte_vecs(salts@).take(j as int) =~= byte_vecs(salts@));
                }
            },
            None => {},
        }
        proof {
            assert(head =~= le_u32_bytes(self@.elements.len() as int));
        }
        assert(data@ =~= tree_bytes(self@));
        data
    }

    /// Constructs a Merkle tree from its binary representation.
    ///
    /// `data` must have been constructed using [MerkleTree::serialize]; a representation that
    /// states zero elements is not accepted as input.
    pub fn deserialize(data: &[u8]) -> (r: Result<Self, String>)
        requires
            !(data@.len() >= 4 && le_u32_value(data@) == 0),
        ensures
            match r {
                Ok(tree) => tree_from_bytes::<T>(data@) == Some(tree@),
                Err(_) => tree_from_bytes::<T>(data@) is None,
            },
    {
        if data.len() < 4 {
            return Err("data.len() < size_of::<u32>()".to_owned());
        }
        let mut cur: &[u8] = data;
        let length = match read_u32_usize(&mut cur) {
            Ok(length) => length,
            Err(e) => return Err(e),
        };
        let ghost body = cur@;
        let mut elements: Vec<T> = Vec::new();
        let mut k: usize = 0;
        while k < length
            invariant
                k <= length,
                1 <= length <= u32::MAX,
                body == data@.skip(4),
                length == le_u32_value(data@),
                parse_framed(body, length as nat) == prepend(
                    element_bytes(elements@),
                    parse_framed(cur@, (length - k) as nat),
                ),
                elements@.len() == k,
                forall|i: int| 0 <= i < k ==> T::spec_accepts(#[trigger] element_bytes(elements@)[i]),
            decreases length - k,
        {
            let ghost before = cur@;
            let item = match read_framed(&mut cur) {
                Ok(item) => item,
                Err(e) => {
                    proof {
                        lemma_parse_framed_split(before, (length - k) as nat);
                    }
                    return Err(e);
                },
            };
            let element = match T::deserialize(item) {
                Ok(element) => element,
                Err(e) => {
                    proof {
                        let rest = parse_framed(cur@, (length - k - 1) as nat);
                        if let Some((xs, tail)) = rest {
                            let all = element_bytes(elements@) + (seq![item@] + xs);
                            assert(all[k as int] == item@);
                        }
                    }
                    return Err(e);
                },
            };
            let ghost done = element_bytes(elements@);
            elements.push(element);
            proof {
                assert(element_bytes(elements@) =~= done.push(item@));
                assert forall|i: int| 0 <= i < k + 1 implies T::spec_accepts(#[trigger] element_bytes(elements@)[i]) by {
                    if i < k {
                        assert(element_bytes(elements@)[i] == done[i]);
                    }
                }
                match parse_framed(cur@, (length - k - 1) as nat) {
                    Some((xs, tail)) => {
                        assert(done + (seq![item@] + xs) =~= done.push(item@) + xs);
                    },
                    None => {},
                }
            }
            k = k + 1;
        }
        let ghost els = element_bytes(elements@);
        proof {
            assert(els + seq![] =~= els);
            assert(parse_framed(body, length as nat) == Some((els, cur@)));
        }
        if cur.len() % length != 0 {
            return Err("data.len() % length != 0".to_owned());
        }
        let salts: Option<Vec<Vec<u8>>> = if cur.len() == 0 {
            None
        } else {
            let size = cur.len() / length;
            proof {
                assert(size * length == cur@.len()) by (nonlinear_arith)
                    requires size == cur.len() / length, cur.len() % length == 0, length >= 1, cur@.len() == cur.len();
            }
            let mut salts: Vec<Vec<u8>> = Vec::new();
            let mut i: usize = 0;
            while i < length
                invariant
                    i <= length,
                    1 <= length,
                    size == cur.len() / length,
                    cur@.len() == cur.len(),
                    size * length == cur@.len(),
                    salts@.len() == i,
                    forall|j: int| 0 <= j < i ==> #[trigger] byte_vecs(salts@)[j] == chunks(cur@, length as int, size as int)[j],
                decreases length - i,
            {
                proof {
                    assert((i + 1) * size <= length * size) by (nonlinear_arith)
                        requires i + 1 <= length;
                    assert(i * size + size == (i + 1) * size) by (nonlinear_arith);
                    assert(length * size == size * length) by (nonlinear_arith);
                    assert(cur@.len() == cur.len());
                }
                let chunk = vstd::slice::slice_to_vec(&cur[i * size..(i + 1) * size]);
                let ghost prev = salts@;
                salts.push(chunk);
                proof {
                    assert forall|j: int| 0 <= j < i + 1 implies #[trigger] byte_vecs(salts@)[j] == chunks(cur@, length as int, size as int)[j] by {
                        assert(byte_vecs(salts@)[j] == salts@[j]@);
                        if j < i {
                            assert(salts@[j] == prev[j]);
                            assert(byte_vecs(prev)[j] == prev[j]@);
                        }
                        if j == i {
                            assert(salts@[j]@ == cur@.subrange(i * size, (i + 1) * size));
                        }
                    }
                }
                i = i + 1;
            }
            proof {
                let c = chunks(cur@, length as int, size as int);
                assert(byte_vecs(salts@) =~= c);
                assert(size >= 1) by (nonlinear_arith)
                    requires size * length == cur@.len(), cur@.len() > 0, length >= 1, size >= 0;
                assert(length * size == size * length) by (nonlinear_arith);
                assert forall|j: int| 0 <= j < c.len() implies #[trigger] c[j].len() == c[0].len() by {
                    assert(j * size + size == (j + 1) * size) by (nonlinear_arith);
                    assert((j + 1) * size <= length * size) by (nonlinear_arith)
                        requires j + 1 <= length, size >= 0;
                    assert(0 <= j * size) by (nonlinear_arith)
                        requires 0 <= j, size >= 0;
                    assert(0 * size == 0 && 1 * size == size) by (nonlinear_arith);
                    assert(size <= length * size) by (nonlinear_arith)
                        requires 1 <= length, size >= 0;
                    assert(c[j].len() == size);
                    assert(c[0].len() == size);
                }
            }
            Some(salts)
        };
        let root = compute_tree_root(&elements, &salts);
        Ok(MerkleTree { elements, salts, root })
    }
}

/// Deserializing the binary representation of a well-formed tree whose elements are
/// representations of `T` gives back the tree.
pub proof fn lemma_tree_roundtrip<T: MerkleLeaf>(v: MerkleTreeView)
    requires
        v.wf(),
        tree_serializable(v),
        forall|i: int| 0 <= i < v.elements.len() ==> T::spec_accepts(#[trigger] v.elements[i]),
    ensures
        tree_from_bytes::<T>(tree_bytes(v)) == Some(v),
{
    lemma_tree_bytes_roundtrip(v);
}

// ---------------------------------------------------------------------------
// Proof binary representation
// ---------------------------------------------------------------------------

/// The binary representation of a Merkle proof: the element's representation and the salt (empty
/// when unsalted), each preceded by its length, then the index and the length of the tree as
/// four little-endian bytes each, then the hashes.
pub open spec fn proof_bytes(v: MerkleProofView) -> Seq<u8> {
    framed(v.element) + match v.salt {
        Some(s) => framed(s),
        None => le_u32_bytes(0),
    } + le_u32_bytes(v.index) + le_u32_bytes(v.length) + concat_all(v.hashes)
}

/// Whether a proof's binary representation exists: its element and salt lengths, its index and
/// its tree length fit in 32 bits.
pub open spec fn proof_serializable(v: MerkleProofView) -> bool {
    &&& v.element.len() <= u32::MAX
    &&& v.index <= u32::MAX
    &&& v.length <= u32::MAX
    &&& (v.salt matches Some(s) ==> s.len() <= u32::MAX)
}

/// The element representation, salt, index, tree length and hashes read from a proof's binary
/// representation.
pub open spec fn parse_proof(data: Seq<u8>) -> Option<(Seq<u8>, Option<Seq<u8>>, int, int, Seq<Seq<u8>>)> {
    if data.len() < 16 {
        None
    } else {
        match parse_one(data) {
            None => None,
            Some((element, r1)) => match parse_one(r1) {
                None => None,
                Some((salt, r2)) => if r2.len() < 8 {
                    None
                } else {
                    let r3 = r2.skip(8);
                    if r3.len() % 32 != 0 {
                        None
                    } else {
                        Some((
                            element,
                            if salt.len() == 0 { None } else { Some(salt) },
                            le_u32_value(r2) as int,
                            le_u32_value(r2.skip(4)) as int,
                            chunks(r3, (r3.len() / 32) as int, 32),
                        ))
                    }
                },
            },
        }
    }
}

/// The Merkle proof read from a binary representation, when its element is a representation of
/// `T` and the proof is consistent.
pub open spec fn proof_from_bytes<T: MerkleLeaf>(data: Seq<u8>) -> Option<MerkleProofView> {
    match parse_proof(data) {
        None => None,
        Some((element, salt, index, length, hashes)) => if !T::spec_accepts(element) {
            None
        } else {
            match proof_root(salted_leaf(element, salt), index, length, hashes) {
                None => None,
                Some(root) => Some(MerkleProofView { element, salt, index, length, hashes, root }),
            }
        },
    }
}

proof fn lemma_parse_one_framed(x: Seq<u8>, rest: Seq<u8>)
    requires
        x.len() <= u32::MAX,
    ensures
        parse_one(framed(x) + rest) == Some((x, rest)),
{
    let data = framed(x) + rest;
    lemma_le_u32_roundtrip(x.len() as int);
    assert(data.skip(4) =~= x + rest);
    assert(le_u32_value(data) == le_u32_value(le_u32_bytes(x.len() as int)));
    assert((x + rest).take(x.len() as int) =~= x);
    assert((x + rest).skip(x.len() as int) =~= rest);
}

/// Reading back the binary representation of a well-formed proof whose element is a
/// representation of `T` gives back the proof.
#[verifier::rlimit(40)]
pub proof fn lemma_proof_roundtrip<T: MerkleLeaf>(v: MerkleProofView)
    requires
        v.wf(),
        proof_serializable(v),
        T::spec_accepts(v.element),
        forall|i: int| 0 <= i < v.hashes.len() ==> (#[trigger] v.hashes[i]).len() == 32,
    ensures
        proof_from_bytes::<T>(proof_bytes(v)) == Some(v),
{
    let salt_part = match v.salt {
        Some(s) => framed(s),
        None => le_u32_bytes(0),
    };
    let tail = le_u32_bytes(v.index) + le_u32_bytes(v.length) + concat_all(v.hashes);
    let data = proof_bytes(v);
    assert(data =~= framed(v.element) + (salt_part + tail));
    lemma_parse_one_framed(v.element, salt_part + tail);
    match v.salt {
        Some(s) => {
            lemma_parse_one_framed(s, tail);
        },
        None => {
            lemma_parse_one_framed(seq![], tail);
            assert(framed(seq![]) =~= le_u32_bytes(0) + seq![]);
            assert(salt_part + tail =~= framed(seq![]) + tail);
        },
    }
    lemma_le_u32_roundtrip(v.index);
    lemma_le_u32_roundtrip(v.length);
    lemma_concat_uniform(v.hashes, 32);
    let h = concat_all(v.hashes);
    assert(tail.skip(8) =~= h);
    assert(tail.skip(4) =~= le_u32_bytes(v.length) + h);
    assert(le_u32_value(tail) == v.index);
    assert(le_u32_value(tail.skip(4)) == v.length);
    assert((h.len() as int) % 32 == 0 && (h.len() as int) / 32 == v.hashes.len()) by (nonlinear_arith)
        requires h.len() as int == v.hashes.len() * 32;
    assert(data.len() >= 16);
}

/// The length of a well-formed proof's binary representation: the framed element, the framed
/// salt (four bytes when unsalted), the index and the tree length, and 32 bytes per hash. The
/// number of hashes can therefore be read from the length.
pub proof fn lemma_proof_bytes_len(v: MerkleProofView)
    requires
        v.wf(),
    ensures
        proof_bytes(v).len() == 4 + v.element.len() + (match v.salt {
            Some(s) => 4 + s.len(),
            None => 4,
        }) + 8 + 32 * v.hashes.len(),
{
    lemma_concat_uniform(v.hashes, 32);
    assert(v.hashes.len() * 32 == 32 * v.hashes.len()) by (nonlinear_arith);
}

impl<T: MerkleLeaf> MerkleProof<T> {
    /// Generates a binary representation that can be used to reconstruct the Merkle proof.
    ///
    /// See [MerkleProof::deserialize].
    pub fn serialize(&self) -> (r: Vec<u8>)
        requires
            proof_serializable(self@),
        ensures
            r@ == proof_bytes(self@),
            proof_from_bytes::<T>(r@) == Some(self@),
    {
        proof {
            use_type_invariant(self);
            self.element.lemma_serialize_accepted();
            lemma_proof_roundtrip::<T>(self@);
        }
        let mut data: Vec<u8> = Vec::new();
        let element = self.element.serialize();
        let _ = write_framed(&mut data, element.as_slice());
        match &self.salt {
            Some(salt) => {
                let _ = write_framed(&mut data, salt.as_slice());
            },
            None => {
                let _ = write_u32_usize(&mut data, 0);
            },
        }
        let _ = write_u32_usize(&mut data, self.index);
        let _ = write_u32_usize(&mut data, self.length);
        let ghost head = data@;
        let mut i: usize = 0;
        while i < self.hashes.len()
            invariant
                i <= self.hashes@.len(),
                self@.hashes == hash_views(self.hashes@),
                data@ == head + concat_all(self@.hashes.take(i as int)),
            decreases self.hashes@.len() - i,
        {
            data.extend_from_slice(self.hashes[i].as_slice());
            proof {
                assert(self@.hashes.take(i + 1) =~= self@.hashes.take(i as int).push(self.hashes@[i as int]@));
                lemma_concat_all_push(self@.hashes.take(i as int), self.hashes@[i as int]@);
            }
            i = i + 1;
        }
        proof {
            assert(self@.hashes.take(i as int) =~= self@.hashes);
        }
        assert(data@ =~= proof_bytes(self@));
        data
    }

    /// Constructs a Merkle proof from its binary representation.
    ///
    /// `data` must have been constructed using [MerkleProof::serialize]; a representation with
    /// an accepted element, index zero and tree length zero is not accepted as input.
    pub fn deserialize(data: &[u8]) -> (r: Result<Self, String>)
        ensures
            match r {
                Ok(p) => proof_from_bytes::<T>(data@) == Some(p@),
                Err(_) => proof_from_bytes::<T>(data@) is None,
            },
    {
        if data.len() < 16 {
            return Err("data.len() < 4 * size_of::<u32>()".to_owned());
        }
        let mut cur: &[u8] = data;
        let element_data = match read_framed(&mut cur) {
            Ok(item) => item,
            Err(e) => return Err(e),
        };
        let element = match T::deserialize(element_data) {
            Ok(element) => element,
            Err(e) => return Err(e),
        };
        let ghost r1 = cur@;
        let salt_data = match read_framed(&mut cur) {
            Ok(item) => item,
            Err(e) => return Err(e),
        };
        let salt: Option<Vec<u8>> = if salt_data.len() == 0 {
            None
        } else {
            Some(vstd::slice::slice_to_vec(salt_data))
        };
        let ghost r2 = cur@;
        let index = match read_u32_usize(&mut cur) {
            Ok(v) => v,
            Err(e) => return Err(e),
        };
        let length = match read_u32_usize(&mut cur) {
            Ok(v) => v,
            Err(e) => return Err(e),
        };
        proof {
            assert(cur@ =~= r2.skip(8));
            assert(r2.skip(4).len() >= 4);
        }
        if cur.len() % 32 != 0 {
            return Err("data.len() % size_of::<Hash>() != 0".to_owned());
        }
        let count = cur.len() / 32;
        let ghost expected = chunks(cur@, count as int, 32);
        let mut hashes: Vec<[u8; 32]> = Vec::new();
        let mut i: usize = 0;
        while i < count
            invariant
                i <= count,
                count == cur.len() / 32,
                cur@.len() == cur.len(),
                cur.len() % 32 == 0,
                expected == chunks(cur@, count as int, 32),
                hashes@.len() == i,
                forall|j: int| 0 <= j < i ==> #[trigger] hash_views(hashes@)[j] == expected[j],
            decreases count - i,
        {
            proof {
                assert(32 * (i + 1) <= cur.len());
            }
            let h = copy32(&cur[32 * i..32 * (i + 1)]);
            let ghost prev = hashes@;
            hashes.push(h);
            proof {
                assert forall|j: int| 0 <= j < i + 1 implies #[trigger] hash_views(hashes@)[j] == expected[j] by {
                    if j < i {
                        assert(hashes@[j] == prev[j]);
                        assert(hash_views(prev)[j] == prev[j]@);
                    }
                    assert(hash_views(hashes@)[j] == hashes@[j]@);
                }
            }
            i = i + 1;
        }
        proof {
            assert(hash_views(hashes@) =~= expected);
        }
        let mut leaf = element.serialize();
        match &salt {
            Some(s) => {
                leaf.extend_from_slice(s.as_slice());
            },
            None => {},
        }
        proof {
            assert(leaf@ =~= salted_leaf(element_data@, opt_bytes(salt)));
        }
        if index == 0 && length == 0 {
            proof {
                lemma_climb_below_root(keccak256_spec(leaf@), 0, -1, hash_views(hashes@));
            }
            return Err("a proof for a tree of no elements".to_owned());
        }
        let root = match compute_proof_root(leaf.as_slice(), index, length, &hashes) {
            Ok(root) => root,
            Err(e) => return Err(e),
        };
        Ok(MerkleProof { element, salt, index, length, hashes, root })
    }
}

/// Climbing from a node with a negative level mask never reaches the root.
proof fn lemma_climb_below_root(cur: Seq<u8>, p: int, m: int, hashes: Seq<Seq<u8>>)
    requires
        m < 0,
    ensures
        climb(cur, p, m, hashes) is None,
    decreases hashes.len(),
{
    if hashes.len() > 0 {
        lemma_climb_below_root(parent_hash(cur, p, hashes[0]), p / 2, m / 2, hashes.drop_first());
    }
}

} // verus!
