//! The byte records under which nodes and metadata are stored.
//!
//! A leaf is `tag | header | vector`, a split plane `tag | left | right | normal`,
//! a descendants node `tag | ids`, all integers in little-endian order and
//! all vectors as packed `f32` bytes. The metadata record is
//! `version | dimensions | roots_len | roots`.
use vstd::bytes::{
    lemma_auto_spec_u32_to_from_le_bytes, spec_u32_from_le_bytes, spec_u32_to_le_bytes,
    u32_from_le_bytes, u32_to_le_bytes,
};
use vstd::prelude::*;
use vstd::slice::{slice_subrange, slice_to_vec};

verus! {

/// First byte of a leaf record.
pub const LEAF_TAG: u8 = 0;

/// First byte of a descendants record.
pub const DESCENDANTS_TAG: u8 = 1;

/// First byte of a split plane record.
pub const SPLIT_PLANE_NORMAL_TAG: u8 = 2;

/// First byte of the metadata record.
pub const METADATA_VERSION: u8 = 0;

/// The bytes of a sequence of `u32`, each in little-endian order, one after the other.
pub open spec fn le_u32s(ids: Seq<u32>) -> Seq<u8>
    decreases ids.len(),
{
    if ids.len() == 0 {
        Seq::empty()
    } else {
        le_u32s(ids.drop_last()) + spec_u32_to_le_bytes(ids.last())
    }
}

/// What a node holds, with vectors as their packed bytes.
pub enum NodeView {
    Leaf { header: Seq<u8>, vector: Seq<u8> },
    Descendants { descendants: Seq<u32> },
    SplitPlaneNormal { normal: Seq<u8>, left: u32, right: u32 },
}

/// A node of a tree, or an item (a leaf), as it is stored.
///
/// The vectors are packed `f32` values, held here as their bytes.
#[derive(Debug, Clone)]
pub enum Node {
    Leaf { header: Vec<u8>, vector: Vec<u8> },
    Descendants { descendants: Vec<u32> },
    SplitPlaneNormal { normal: Vec<u8>, left: u32, right: u32 },
}

impl View for Node {
    type V = NodeView;

    open spec fn view(&self) -> NodeView {
        match self {
            Node::Leaf { header, vector } => NodeView::Leaf { header: header@, vector: vector@ },
            Node::Descendants { descendants } => NodeView::Descendants {
                descendants: descendants@,
            },
            Node::SplitPlaneNormal { normal, left, right } => NodeView::SplitPlaneNormal {
                normal: normal@,
                left: *left,
                right: *right,
            },
        }
    }
}

/// A node that has a record: its header has the metric's length and its
/// vectors are whole `f32` values.
pub open spec fn valid_node(n: NodeView, header_len: nat) -> bool {
    match n {
        NodeView::Leaf { header, vector } => header.len() == header_len && vector.len() % 4 == 0,
        NodeView::Descendants { .. } => true,
        NodeView::SplitPlaneNormal { normal, .. } => normal.len() % 4 == 0,
    }
}

/// The record of a node.
pub open spec fn node_record(n: NodeView) -> Seq<u8> {
    match n {
        NodeView::Leaf { header, vector } => seq![LEAF_TAG] + header + vector,
        NodeView::Descendants { descendants } => seq![DESCENDANTS_TAG] + le_u32s(descendants),
        NodeView::SplitPlaneNormal { normal, left, right } => seq![SPLIT_PLANE_NORMAL_TAG]
            + spec_u32_to_le_bytes(left) + spec_u32_to_le_bytes(right) + normal,
    }
}

/// The byte strings that are the record of some node: a known tag followed by
/// a payload of a length that this tag admits.
pub open spec fn is_node_record(b: Seq<u8>, header_len: nat) -> bool {
    &&& b.len() >= 1
    &&& {
        ||| b[0] == LEAF_TAG && b.len() >= 1 + header_len && (b.len() - 1 - header_len) % 4 == 0
        ||| b[0] == DESCENDANTS_TAG && (b.len() - 1) % 4 == 0
        ||| b[0] == SPLIT_PLANE_NORMAL_TAG && b.len() >= 9 && (b.len() - 9) % 4 == 0
    }
}

/// What the metadata record holds.
pub struct MetadataView {
    pub dimensions: u32,
    pub roots: Seq<u32>,
}

/// The metadata of an index: its dimensions and the root of each of its trees.
#[derive(Debug, Clone)]
pub struct Metadata {
    pub dimensions: u32,
    pub roots: Vec<u32>,
}

impl View for Metadata {
    type V = MetadataView;

    open spec fn view(&self) -> MetadataView {
        MetadataView { dimensions: self.dimensions, roots: self.roots@ }
    }
}

/// The record of a metadata value whose roots count fits in a `u32`.
pub open spec fn metadata_record(m: MetadataView) -> Seq<u8> {
    seq![METADATA_VERSION] + spec_u32_to_le_bytes(m.dimensions) + spec_u32_to_le_bytes(
        m.roots.len() as u32,
    ) + le_u32s(m.roots)
}

/// The byte strings that are a metadata record: the version, the dimensions,
/// a count and that many roots.
pub open spec fn is_metadata_record(b: Seq<u8>) -> bool {
    &&& b.len() >= 9
    &&& b[0] == METADATA_VERSION
    &&& b.len() - 9 == 4 * (spec_u32_from_le_bytes(b.subrange(5, 9)) as int)
}

/// Why a record could not be read.
#[derive(Debug, Clone, Copy, PartialEq, Eq, Structural)]
pub enum DecodeError {
    /// The record is empty.
    Empty,
    /// The first byte is no known tag or version.
    UnknownTag,
    /// The length of the record does not fit what its tag announces.
    BadLength,
}

/// The length of a byte slice is no whole number of `f32` values.
#[derive(Debug, Clone, Copy, PartialEq, Eq, Structural)]
pub struct SizeMismatch;

/// A vector does not hold as many values as the index has dimensions.
#[derive(Debug, Clone, Copy, PartialEq, Eq, Structural)]
pub struct DimensionMismatch {
    pub expected: usize,
    pub received: usize,
}

/// A sequence of `f32` held as packed bytes, with no alignment.
#[derive(Debug, Clone)]
pub struct UnalignedVector {
    bytes: Vec<u8>,
}

impl View for UnalignedVector {
    type V = Seq<u8>;

    closed spec fn view(&self) -> Seq<u8> {
        self.bytes@
    }
}

impl UnalignedVector {
    /// Views `bytes` as packed `f32` values; fails unless its length is a multiple of four.
    pub fn from_bytes(bytes: &[u8]) -> (r: Result<UnalignedVector, SizeMismatch>)
        ensures
            bytes@.len() % 4 == 0 <==> r is Ok,
            r matches Ok(v) ==> v@ == bytes@,
    {
        if bytes.len() % 4 == 0 {
            Ok(UnalignedVector { bytes: slice_to_vec(bytes) })
        } else {
            Err(SizeMismatch)
        }
    }

    /// The packed bytes.
    pub fn as_bytes(&self) -> (r: &[u8])
        ensures
            r@ == self@,
    {
        self.bytes.as_slice()
    }

    /// The number of `f32` values.
    pub fn len(&self) -> (r: usize)
        ensures
            r == self@.len() / 4,
    {
        self.bytes.len() / 4
    }

    /// Gives the packed bytes back.
    pub fn into_bytes(self) -> (r: Vec<u8>)
        ensures
            r@ == self@,
    {
        self.bytes
    }
}

proof fn lemma_le_u32s_len(ids: Seq<u32>)
    ensures
        le_u32s(ids).len() == 4 * ids.len(),
    decreases ids.len(),
{
    lemma_auto_spec_u32_to_from_le_bytes();
    if ids.len() > 0 {
        lemma_le_u32s_len(ids.drop_last());
    }
}

proof fn lemma_le_u32s_injective(a: Seq<u32>, b: Seq<u32>)
    requires
        le_u32s(a) == le_u32s(b),
    ensures
        a == b,
    decreases a.len(),
{
    lemma_auto_spec_u32_to_from_le_bytes();
    lemma_le_u32s_len(a);
    lemma_le_u32s_len(b);
    if a.len() > 0 {
        let n = le_u32s(a).len() as int;
        lemma_le_u32s_len(a.drop_last());
        lemma_le_u32s_len(b.drop_last());
        assert(le_u32s(a.drop_last()) =~= le_u32s(a).subrange(0, n - 4));
        assert(le_u32s(b.drop_last()) =~= le_u32s(b).subrange(0, n - 4));
        assert(spec_u32_to_le_bytes(a.last()) =~= le_u32s(a).subrange(n - 4, n));
        assert(spec_u32_to_le_bytes(b.last()) =~= le_u32s(b).subrange(n - 4, n));
        lemma_le_u32s_injective(a.drop_last(), b.drop_last());
        assert(a =~= a.drop_last().push(a.last()));
        assert(b =~= b.drop_last().push(b.last()));
    } else {
        assert(a =~= b);
    }
}

/// Appends `x` in little-endian order.
fn push_u32_le(out: &mut Vec<u8>, x: u32)
    ensures
        final(out)@ == old(out)@ + spec_u32_to_le_bytes(x),
{
    let mut b = u32_to_le_bytes(x);
    out.append(&mut b);
}

/// Appends the ids one after the other, each in little-endian order.
fn push_u32s_le(out: &mut Vec<u8>, ids: &Vec<u32>)
    ensures
        final(out)@ == old(out)@ + le_u32s(ids@),
{
    let mut i: usize = 0;
    while i < ids.len()
        invariant
            i <= ids@.len(),
            out@ == old(out)@ + le_u32s(ids@.take(i as int)),
        decreases ids@.len() - i,
    {
        push_u32_le(out, ids[i]);
        proof {
            assert(ids@.take(i + 1).drop_last() =~= ids@.take(i as int));
        }
        i = i + 1;
    }
    assert(ids@.take(i as int) =~= ids@);
}

/// Reads the `u32` stored in little-endian order at `at`.
fn read_u32_le(b: &[u8], at: usize) -> (r: u32)
    requires
        at + 4 <= b@.len(),
    ensures
        r == spec_u32_from_le_bytes(b@.subrange(at as int, at + 4)),
        spec_u32_to_le_bytes(r) == b@.subrange(at as int, at + 4),
{
    proof {
        lemma_auto_spec_u32_to_from_le_bytes();
    }
    let len = b.len();
    assert(at + 4 <= len);
    u32_from_le_bytes(slice_subrange(b, at, at + 4))
}

/// Reads the `u32` values stored one after the other from `start` to the end of `b`.
fn read_u32s_le(b: &[u8], start: usize) -> (r: Vec<u32>)
    requires
        start <= b@.len(),
        (b@.len() - start) % 4 == 0,
    ensures
        le_u32s(r@) == b@.subrange(start as int, b@.len() as int),
{
    let mut ids: Vec<u32> = Vec::new();
    let mut at: usize = start;
    while at < b.len()
        invariant
            start <= at <= b@.len(),
            (b@.len() - at) % 4 == 0,
            le_u32s(ids@) == b@.subrange(start as int, at as int),
        decreases b@.len() - at,
    {
        let x = read_u32_le(b, at);
        let ghost prev = ids@;
        ids.push(x);
        proof {
            assert(ids@.drop_last() =~= prev);
            assert(b@.subrange(start as int, at + 4) =~= b@.subrange(start as int, at as int)
                + b@.subrange(at as int, at + 4));
        }
        at = at + 4;
    }
    ids
}

impl Node {
    /// The leaf of an item whose vector is given as packed `f32` bytes; fails
    /// unless it holds `dimensions` values.
    pub fn new_leaf(header: Vec<u8>, vector: Vec<u8>, dimensions: usize) -> (r: Result<
        Node,
        DimensionMismatch,
    >)
        ensures
            r is Ok <==> vector@.len() == 4 * dimensions,
            r matches Ok(n) ==> n@ == (NodeView::Leaf { header: header@, vector: vector@ }),
            r matches Err(e) ==> e == (DimensionMismatch {
                expected: dimensions,
                received: (vector@.len() / 4) as usize,
            }),
    {
        let len = vector.len();
        if len % 4 == 0 && len / 4 == dimensions {
            Ok(Node::Leaf { header, vector })
        } else {
            Err(DimensionMismatch { expected: dimensions, received: len / 4 })
        }
    }

    /// The record of this node.
    pub fn encode(&self) -> (r: Vec<u8>)
        ensures
            r@ == node_record(self@),
    {
        match self {
            Node::Leaf { header, vector } => {
                let mut out = vec![LEAF_TAG];
                let mut h = slice_to_vec(header.as_slice());
                let mut v = slice_to_vec(vector.as_slice());
                out.append(&mut h);
                out.append(&mut v);
                out
            },
            Node::Descendants { descendants } => {
                let mut out = vec![DESCENDANTS_TAG];
                push_u32s_le(&mut out, descendants);
                out
            },
            Node::SplitPlaneNormal { normal, left, right } => {
                let mut out = vec![SPLIT_PLANE_NORMAL_TAG];
                push_u32_le(&mut out, *left);
                push_u32_le(&mut out, *right);
                let mut v = slice_to_vec(normal.as_slice());
                out.append(&mut v);
                out
            },
        }
    }

    /// Reads a node from its record, for a metric whose leaf header takes `header_len` bytes.
    pub fn decode(b: &[u8], header_len: usize) -> (r: Result<Node, DecodeError>)
        ensures
            r is Ok <==> is_node_record(b@, header_len as nat),
            r matches Ok(n) ==> valid_node(n@, header_len as nat) && node_record(n@) == b@,
            r == Err::<Node, DecodeError>(DecodeError::Empty) <==> b@.len() == 0,
            r == Err::<Node, DecodeError>(DecodeError::UnknownTag) <==> (b@.len() >= 1 && b@[0]
                != LEAF_TAG && b@[0] != DESCENDANTS_TAG && b@[0] != SPLIT_PLANE_NORMAL_TAG),
    {
        proof {
            lemma_auto_spec_u32_to_from_le_bytes();
        }
        if b.len() == 0 {
            return Err(DecodeError::Empty);
        }
        let tag = b[0];
        let len = b.len();
        if tag == LEAF_TAG {
            if len - 1 < header_len || (len - 1 - header_len) % 4 != 0 {
                return Err(DecodeError::BadLength);
            }
            let header = slice_to_vec(slice_subrange(b, 1, 1 + header_len));
            let vector = slice_to_vec(slice_subrange(b, 1 + header_len, len));
            let n = Node::Leaf { header, vector };
            assert(node_record(n@) =~= b@);
            Ok(n)
        } else if tag == DESCENDANTS_TAG {
            if (len - 1) % 4 != 0 {
                return Err(DecodeError::BadLength);
            }
            let descendants = read_u32s_le(b, 1);
            let n = Node::Descendants { descendants };
            assert(node_record(n@) =~= b@);
            Ok(n)
        } else if tag == SPLIT_PLANE_NORMAL_TAG {
            if len < 9 || (len - 9) % 4 != 0 {
                return Err(DecodeError::BadLength);
            }
            let left = read_u32_le(b, 1);
            let right = read_u32_le(b, 5);
            let normal = slice_to_vec(slice_subrange(b, 9, len));
            let n = Node::SplitPlaneNormal { normal, left, right };
            assert(node_record(n@) =~= b@);
            Ok(n)
        } else {
            Err(DecodeError::UnknownTag)
        }
    }
}

/// Whether a stored record is a leaf, that is an item.
pub fn is_leaf_record(b: &[u8]) -> (r: bool)
    ensures
        r == (b@.len() >= 1 && b@[0] == LEAF_TAG),
{
    b.len() >= 1 && b[0] == LEAF_TAG
}

impl Metadata {
    /// The metadata record.
    pub fn encode(&self) -> (r: Vec<u8>)
        requires
            self.roots@.len() <= u32::MAX,
        ensures
            r@ == metadata_record(self@),
    {
        let mut out = vec![METADATA_VERSION];
        push_u32_le(&mut out, self.dimensions);
        push_u32_le(&mut out, self.roots.len() as u32);
        push_u32s_le(&mut out, &self.roots);
        out
    }

    /// Reads metadata from its record.
    pub fn decode(b: &[u8]) -> (r: Result<Metadata, DecodeError>)
        ensures
            r is Ok <==> is_metadata_record(b@),
            r matches Ok(m) ==> m@.roots.len() <= u32::MAX && metadata_record(m@) == b@,
            r == Err::<Metadata, DecodeError>(DecodeError::Empty) <==> b@.len() == 0,
            r == Err::<Metadata, DecodeError>(DecodeError::UnknownTag) <==> (b@.len() >= 1
                && b@[0] != METADATA_VERSION),
    {
        proof {
            lemma_auto_spec_u32_to_from_le_bytes();
        }
        if b.len() == 0 {
            return Err(DecodeError::Empty);
        }
        if b[0] != METADATA_VERSION {
            return Err(DecodeError::UnknownTag);
        }
        if b.len() < 9 {
            return Err(DecodeError::BadLength);
        }
        let dimensions = read_u32_le(b, 1);
        let count = read_u32_le(b, 5);
        if (b.len() - 9) / 4 != count as usize || (b.len() - 9) % 4 != 0 {
            return Err(DecodeError::BadLength);
        }
        let roots = read_u32s_le(b, 9);
        proof {
            lemma_le_u32s_len(roots@);
        }
        let m = Metadata { dimensions, roots };
        assert(metadata_record(m@) =~= b@);
        Ok(m)
    }
}

/// Decoding the record of a valid node gives that node back: the record is
/// accepted by `Node::decode`, and no other valid node has the same record.
pub proof fn lemma_node_record_round_trip(n: NodeView, m: NodeView, header_len: nat)
    requires
        valid_node(n, header_len),
        valid_node(m, header_len),
    ensures
        is_node_record(node_record(n), header_len),
        node_record(m) == node_record(n) ==> m == n,
{
    lemma_auto_spec_u32_to_from_le_bytes();
    let b = node_record(n);
    match n {
        NodeView::Descendants { descendants } => {
            lemma_le_u32s_len(descendants);
        },
        _ => {},
    }
    if node_record(m) == b {
        assert(node_record(m)[0] == b[0]);
        match n {
            NodeView::Leaf { header, vector } => {
                let h = header_len as int;
                assert(header =~= b.subrange(1, 1 + h));
                assert(vector =~= b.subrange(1 + h, b.len() as int));
                assert(m->Leaf_header =~= node_record(m).subrange(1, 1 + h));
                assert(m->Leaf_vector =~= node_record(m).subrange(1 + h, b.len() as int));
            },
            NodeView::Descendants { descendants } => {
                assert(le_u32s(descendants) =~= b.subrange(1, b.len() as int));
                assert(le_u32s(m->descendants) =~= node_record(m).subrange(1, b.len() as int));
                lemma_le_u32s_injective(descendants, m->descendants);
            },
            NodeView::SplitPlaneNormal { normal, left, right } => {
                assert(spec_u32_to_le_bytes(left) =~= b.subrange(1, 5));
                assert(spec_u32_to_le_bytes(right) =~= b.subrange(5, 9));
                assert(normal =~= b.subrange(9, b.len() as int));
                assert(spec_u32_to_le_bytes(m->left) =~= node_record(m).subrange(1, 5));
                assert(spec_u32_to_le_bytes(m->right) =~= node_record(m).subrange(5, 9));
                assert(m->normal =~= node_record(m).subrange(9, b.len() as int));
            },
        }
    }
}

/// Decoding the record of metadata gives it back: the record is accepted by
/// `Metadata::decode`, and no other metadata has the same record.
pub proof fn lemma_metadata_record_round_trip(a: MetadataView, b: MetadataView)
    requires
        a.roots.len() <= u32::MAX,
        b.roots.len() <= u32::MAX,
    ensures
        is_metadata_record(metadata_record(a)),
        metadata_record(a) == metadata_record(b) ==> a == b,
{
    lemma_auto_spec_u32_to_from_le_bytes();
    lemma_le_u32s_len(a.roots);
    lemma_le_u32s_len(b.roots);
    let ra = metadata_record(a);
    let rb = metadata_record(b);
    assert(ra.subrange(5, 9) =~= spec_u32_to_le_bytes(a.roots.len() as u32));
    if ra == rb {
        assert(ra.subrange(1, 5) =~= spec_u32_to_le_bytes(a.dimensions));
        assert(rb.subrange(1, 5) =~= spec_u32_to_le_bytes(b.dimensions));
        assert(ra.subrange(9, ra.len() as int) =~= le_u32s(a.roots));
        assert(rb.subrange(9, rb.len() as int) =~= le_u32s(b.roots));
        lemma_le_u32s_injective(a.roots, b.roots);
    }
}

} // verus!
