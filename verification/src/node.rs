//! The recursive node model: data, references, sequences, repeats, slices and pages

use vstd::prelude::*;
use crate::address::{
    Address, AddressView, NodeType, BinaryVerdict, binary_verdict, binary_result_is, spec_to_binary,
    lemma_binary_verdict_roundtrip,
};
use crate::error::{AddressError, NodeError, PageError};
use crate::page::{Page, PageVerdict, page_verdict, page_result_is, page_payload, page_wf, lemma_page_verdict_roundtrip};
use crate::util::{append_bytes, be_bytes, be_value, copy_bytes, push_be, read_be, pow256, lemma_be_bytes_len, lemma_be_roundtrip};

verus! {

broadcast use vstd::std_specs::vec::group_vec_axioms;

/// Fundamental recursive node primitives
#[derive(Debug, PartialEq, Eq)]
pub enum Node {
    /// Literal raw byte content
    Data(Vec<u8>),
    /// Reference pointing to another canonical address
    Reference(Address),
    /// Ordered concatenation of child addresses
    Sequence(Vec<Address>),
    /// Repetition of a child address `count` times
    Repeat { target: Address, count: u64 },
    /// Sliced range of a child address
    Slice { target: Address, offset: u64, length: u64 },
    /// Canonical logical page
    Page(Page),
}

/// Mathematical model of a node
pub enum NodeView {
    Data(Seq<u8>),
    Reference(AddressView),
    Sequence(Seq<AddressView>),
    Repeat { target: AddressView, count: u64 },
    Slice { target: AddressView, offset: u64, length: u64 },
    Page(Seq<u8>),
}

/// The models of a list of addresses
pub open spec fn addr_views(v: Seq<Address>) -> Seq<AddressView> {
    v.map_values(|a: Address| a@)
}

impl View for Node {
    type V = NodeView;

    open spec fn view(&self) -> NodeView {
        match self {
            Node::Data(b) => NodeView::Data(b@),
            Node::Reference(a) => NodeView::Reference(a@),
            Node::Sequence(c) => NodeView::Sequence(addr_views(c@)),
            Node::Repeat { target, count } => NodeView::Repeat { target: target@, count: *count },
            Node::Slice { target, offset, length } => NodeView::Slice { target: target@, offset: *offset, length: *length },
            Node::Page(p) => NodeView::Page(p@),
        }
    }
}

/// The node type of each kind of node
pub open spec fn spec_node_type(n: NodeView) -> NodeType {
    match n {
        NodeView::Data(_) => NodeType::Data,
        NodeView::Reference(_) => NodeType::Ref,
        NodeView::Sequence(_) => NodeType::Sequence,
        NodeView::Repeat { .. } => NodeType::Rep,
        NodeView::Slice { .. } => NodeType::Slice,
        NodeView::Page(_) => NodeType::Page,
    }
}

/// The immediate children of a node, in order
pub open spec fn spec_children(n: NodeView) -> Seq<AddressView> {
    match n {
        NodeView::Data(_) => Seq::empty(),
        NodeView::Reference(a) => seq![a],
        NodeView::Sequence(c) => c,
        NodeView::Repeat { target, .. } => seq![target],
        NodeView::Slice { target, .. } => seq![target],
        NodeView::Page(_) => Seq::empty(),
    }
}

/// Each child's binary form, preceded by its length as four big-endian bytes
pub open spec fn children_blob(c: Seq<AddressView>) -> Seq<u8>
    decreases c.len(),
{
    if c.len() == 0 {
        Seq::empty()
    } else {
        children_blob(c.drop_last()) + be_bytes(spec_to_binary(c.last()).len(), 4) + spec_to_binary(c.last())
    }
}

/// The canonical address of a node, or the error that refuses it
pub open spec fn spec_node_address(n: NodeView) -> Result<AddressView, NodeError> {
    match n {
        NodeView::Data(b) => Ok(AddressView { version: 1, node_type: NodeType::Data, payload: b }),
        NodeView::Reference(a) => Ok(AddressView { version: 1, node_type: NodeType::Ref, payload: spec_to_binary(a) }),
        NodeView::Sequence(c) => if c.len() == 0 {
            Err(NodeError::EmptySequence)
        } else {
            Ok(AddressView { version: 1, node_type: NodeType::Sequence, payload: be_bytes(c.len(), 4) + children_blob(c) })
        },
        NodeView::Repeat { target, count } => if count == 0 {
            Err(NodeError::ZeroRepeatCount)
        } else {
            Ok(AddressView { version: 1, node_type: NodeType::Rep, payload: be_bytes(count as nat, 8) + spec_to_binary(target) })
        },
        NodeView::Slice { target, offset, length } => if length == 0 {
            Err(NodeError::InvalidSliceRange { offset, length })
        } else {
            Ok(
                AddressView {
                    version: 1,
                    node_type: NodeType::Slice,
                    payload: be_bytes(offset as nat, 8) + be_bytes(length as nat, 8) + spec_to_binary(target),
                },
            )
        },
        NodeView::Page(d) => Ok(AddressView { version: 1, node_type: NodeType::Page, payload: page_payload(0, d) }),
    }
}

impl Node {
    /// Associated node type
    pub fn node_type(&self) -> (r: NodeType)
        ensures
            r == spec_node_type(self@),
    {
        match self {
            Node::Data(_) => NodeType::Data,
            Node::Reference(_) => NodeType::Ref,
            Node::Sequence(_) => NodeType::Sequence,
            Node::Repeat { .. } => NodeType::Rep,
            Node::Slice { .. } => NodeType::Slice,
            Node::Page(_) => NodeType::Page,
        }
    }

    /// All immediate child addresses referenced by this node
    pub fn child_addresses(&self) -> (r: Vec<&Address>)
        ensures
            r@.len() == spec_children(self@).len(),
            forall|i: int| 0 <= i < r@.len() ==> (#[trigger] r@[i])@ == spec_children(self@)[i],
    {
        match self {
            Node::Data(_) => Vec::new(),
            Node::Reference(a) => {
                let mut v: Vec<&Address> = Vec::new();
                v.push(a);
                v
            },
            Node::Sequence(c) => {
                let mut v: Vec<&Address> = Vec::new();
                let mut i: usize = 0;
                while i < c.len()
                    invariant
                        i <= c@.len(),
                        v@.len() == i,
                        forall|k: int| 0 <= k < i ==> (#[trigger] v@[k])@ == c@[k]@,
                    decreases c@.len() - i,
                {
                    v.push(&c[i]);
                    i = i + 1;
                }
                v
            },
            Node::Repeat { target, .. } => {
                let mut v: Vec<&Address> = Vec::new();
                v.push(target);
                v
            },
            Node::Slice { target, .. } => {
                let mut v: Vec<&Address> = Vec::new();
                v.push(target);
                v
            },
            Node::Page(_) => Vec::new(),
        }
    }

    /// All immediate child addresses as an owned vector
    pub fn children(&self) -> (r: Vec<Address>)
        ensures
            addr_views(r@) == spec_children(self@),
    {
        let refs = self.child_addresses();
        let mut out: Vec<Address> = Vec::new();
        let mut i: usize = 0;
        while i < refs.len()
            invariant
                i <= refs@.len(),
                refs@.len() == spec_children(self@).len(),
                forall|k: int| 0 <= k < refs@.len() ==> (#[trigger] refs@[k])@ == spec_children(self@)[k],
                addr_views(out@) == spec_children(self@).take(i as int),
            decreases refs@.len() - i,
        {
            let c: Address = refs[i].clone();
            assert(c@ == refs@[i as int]@);
            let ghost before = out@;
            out.push(c);
            assert(out@ == before.push(c));
            assert(addr_views(out@) =~= addr_views(before).push(c@));
            i = i + 1;
            assert(addr_views(out@) =~= spec_children(self@).take(i as int));
        }
        assert(spec_children(self@).take(refs@.len() as int) =~= spec_children(self@));
        out
    }
}

/// A copy of a list of addresses
fn clone_addresses(v: &Vec<Address>) -> (r: Vec<Address>)
    ensures
        addr_views(r@) == addr_views(v@),
{
    let mut out: Vec<Address> = Vec::new();
    let mut i: usize = 0;
    while i < v.len()
        invariant
            i <= v@.len(),
            addr_views(out@) == addr_views(v@).take(i as int),
        decreases v@.len() - i,
    {
        let c = v[i].clone();
        let ghost before = out@;
        out.push(c);
        assert(addr_views(out@) =~= addr_views(before).push(c@));
        i = i + 1;
        assert(addr_views(out@) =~= addr_views(v@).take(i as int));
    }
    assert(addr_views(v@).take(v@.len() as int) =~= addr_views(v@));
    out
}

impl Clone for Node {
    fn clone(&self) -> (r: Self)
        ensures
            r@ == self@,
    {
        match self {
            Node::Data(b) => Node::Data(copy_bytes(b.as_slice())),
            Node::Reference(a) => Node::Reference(a.clone()),
            Node::Sequence(c) => Node::Sequence(clone_addresses(c)),
            Node::Repeat { target, count } => Node::Repeat { target: target.clone(), count: *count },
            Node::Slice { target, offset, length } => Node::Slice {
                target: target.clone(),
                offset: *offset,
                length: *length,
            },
            Node::Page(p) => Node::Page(p.clone()),
        }
    }
}

/// The node's address is what `spec_node_address` says: the same address, or the same error
pub open spec fn node_address_is(r: Result<Address, NodeError>, n: NodeView) -> bool {
    match spec_node_address(n) {
        Ok(v) => r matches Ok(a) && a@ == v,
        Err(e) => r == Err::<Address, NodeError>(e),
    }
}

proof fn lemma_children_blob_step(c: Seq<AddressView>, i: int)
    requires
        0 <= i < c.len(),
    ensures
        children_blob(c.take(i + 1)) == children_blob(c.take(i)) + be_bytes(spec_to_binary(c[i]).len(), 4)
            + spec_to_binary(c[i]),
{
    assert(c.take(i + 1).drop_last() =~= c.take(i));
}

impl Node {
    /// Convert node into its canonical Address representation
    pub fn to_address(&self) -> (r: Result<Address, NodeError>)
        ensures
            node_address_is(r, self@),
            r matches Ok(a) ==> a@.wf(),
    {
        match self {
            Node::Data(bytes) => {
                let a = Address::build(NodeType::Data, copy_bytes(bytes.as_slice()));
                Ok(a)
            },
            Node::Reference(addr) => {
                let bin = addr.to_binary();
                assert(bin@.len() > 0);
                Ok(Address::build(NodeType::Ref, bin))
            },
            Node::Sequence(children) => {
                if children.len() == 0 {
                    return Err(NodeError::EmptySequence);
                }
                let ghost cv = addr_views(children@);
                let mut payload: Vec<u8> = Vec::new();
                push_be(&mut payload, children.len() as u64, 4);
                let mut i: usize = 0;
                while i < children.len()
                    invariant
                        i <= children@.len(),
                        cv == addr_views(children@),
                        payload@ == be_bytes(children@.len() as nat, 4) + children_blob(cv.take(i as int)),
                    decreases children@.len() - i,
                {
                    let child_bin = children[i].to_binary();
                    proof {
                        lemma_children_blob_step(cv, i as int);
                    }
                    push_be(&mut payload, child_bin.len() as u64, 4);
                    append_bytes(&mut payload, child_bin.as_slice());
                    i = i + 1;
                    assert(payload@ =~= be_bytes(children@.len() as nat, 4) + children_blob(cv.take(i as int)));
                }
                assert(cv.take(children@.len() as int) =~= cv);
                proof {
                    lemma_be_bytes_len(children@.len() as nat, 4);
                }
                Ok(Address::build(NodeType::Sequence, payload))
            },
            Node::Repeat { target, count } => {
                if *count == 0 {
                    return Err(NodeError::ZeroRepeatCount);
                }
                let mut payload: Vec<u8> = Vec::new();
                push_be(&mut payload, *count, 8);
                let bin = target.to_binary();
                append_bytes(&mut payload, bin.as_slice());
                proof {
                    lemma_be_bytes_len(*count as nat, 8);
                }
                Ok(Address::build(NodeType::Rep, payload))
            },
            Node::Slice { target, offset, length } => {
                if *length == 0 {
                    return Err(NodeError::InvalidSliceRange { offset: *offset, length: *length });
                }
                let mut payload: Vec<u8> = Vec::new();
                push_be(&mut payload, *offset, 8);
                push_be(&mut payload, *length, 8);
                let bin = target.to_binary();
                append_bytes(&mut payload, bin.as_slice());
                proof {
                    lemma_be_bytes_len(*offset as nat, 8);
                }
                Ok(Address::build(NodeType::Slice, payload))
            },
            Node::Page(page) => Ok(page.to_address(0)),
        }
    }
}

/// The outcome of reading child addresses from a sequence payload
pub enum ChildParse {
    Done(Seq<AddressView>),
    TruncatedLength,
    TruncatedBinary,
    BadChild(BinaryVerdict),
}

/// Read `k` length-prefixed child binaries from `p` starting at `off`
pub open spec fn parse_children(p: Seq<u8>, off: int, k: nat) -> ChildParse
    decreases k,
{
    if k == 0 {
        ChildParse::Done(Seq::empty())
    } else if off + 4 > p.len() {
        ChildParse::TruncatedLength
    } else {
        let cl = be_value(p.subrange(off, off + 4));
        let o2 = off + 4;
        if o2 + cl > p.len() {
            ChildParse::TruncatedBinary
        } else {
            match binary_verdict(p.subrange(o2, o2 + cl)) {
                BinaryVerdict::Parsed(a) => match parse_children(p, o2 + cl, (k - 1) as nat) {
                    ChildParse::Done(rest) => ChildParse::Done(seq![a] + rest),
                    e => e,
                },
                v => ChildParse::BadChild(v),
            }
        }
    }
}

/// Children already read, in front of what reading the rest gives
pub open spec fn prepend_children(done: Seq<AddressView>, rest: ChildParse) -> ChildParse {
    match rest {
        ChildParse::Done(r) => ChildParse::Done(done + r),
        e => e,
    }
}

/// What decoding an address as a node yields
pub enum NodeVerdict {
    Parsed(NodeView),
    Truncated(Seq<char>),
    EmptySequence,
    ZeroCount,
    ZeroSlice(u64, u64),
    BadAddress(BinaryVerdict),
    BadPage(PageVerdict),
}

/// Message for a payload shorter than the sequence header
pub open spec fn msg_seq_header() -> Seq<char> {
    "Truncated sequence header"@
}

/// Message for a child length field that runs past the payload
pub open spec fn msg_child_length() -> Seq<char> {
    "Truncated child length"@
}

/// Message for a child binary that runs past the payload
pub open spec fn msg_child_binary() -> Seq<char> {
    "Truncated child binary"@
}

/// Message for a payload shorter than a repeat count
pub open spec fn msg_repeat_count() -> Seq<char> {
    "Truncated repeat count"@
}

/// Message for a payload shorter than a slice header
pub open spec fn msg_slice_header() -> Seq<char> {
    "Truncated slice header"@
}

/// The verdict of `Node::from_address` on an address
pub open spec fn node_verdict(a: AddressView) -> NodeVerdict {
    let p = a.payload;
    match a.node_type {
        NodeType::Data => NodeVerdict::Parsed(NodeView::Data(p)),
        NodeType::Ref => match binary_verdict(p) {
            BinaryVerdict::Parsed(t) => NodeVerdict::Parsed(NodeView::Reference(t)),
            v => NodeVerdict::BadAddress(v),
        },
        NodeType::Sequence => if p.len() < 4 {
            NodeVerdict::Truncated(msg_seq_header())
        } else {
            let count = be_value(p.subrange(0, 4));
            if count == 0 {
                NodeVerdict::EmptySequence
            } else {
                match parse_children(p, 4, count) {
                    ChildParse::Done(c) => NodeVerdict::Parsed(NodeView::Sequence(c)),
                    ChildParse::TruncatedLength => NodeVerdict::Truncated(msg_child_length()),
                    ChildParse::TruncatedBinary => NodeVerdict::Truncated(msg_child_binary()),
                    ChildParse::BadChild(v) => NodeVerdict::BadAddress(v),
                }
            }
        },
        NodeType::Rep => if p.len() < 8 {
            NodeVerdict::Truncated(msg_repeat_count())
        } else {
            let count = be_value(p.subrange(0, 8));
            if count == 0 {
                NodeVerdict::ZeroCount
            } else {
                match binary_verdict(p.subrange(8, p.len() as int)) {
                    BinaryVerdict::Parsed(t) => NodeVerdict::Parsed(NodeView::Repeat { target: t, count: count as u64 }),
                    v => NodeVerdict::BadAddress(v),
                }
            }
        },
        NodeType::Slice => if p.len() < 16 {
            NodeVerdict::Truncated(msg_slice_header())
        } else {
            let offset = be_value(p.subrange(0, 8)) as u64;
            let length = be_value(p.subrange(8, 16)) as u64;
            if length == 0 {
                NodeVerdict::ZeroSlice(offset, length)
            } else {
                match binary_verdict(p.subrange(16, p.len() as int)) {
                    BinaryVerdict::Parsed(t) => NodeVerdict::Parsed(NodeView::Slice { target: t, offset, length }),
                    v => NodeVerdict::BadAddress(v),
                }
            }
        },
        NodeType::Page => match page_verdict(a) {
            PageVerdict::Parsed(_, d) => NodeVerdict::Parsed(NodeView::Page(d)),
            v => NodeVerdict::BadPage(v),
        },
    }
}

/// The node decoder's result `r` is what verdict `v` says
pub open spec fn node_result_is(r: Result<Node, NodeError>, v: NodeVerdict) -> bool {
    match v {
        NodeVerdict::Parsed(n) => r matches Ok(x) && x@ == n,
        NodeVerdict::Truncated(m) => r matches Err(NodeError::InvalidPayload(s)) && s@ == m,
        NodeVerdict::EmptySequence => r == Err::<Node, NodeError>(NodeError::EmptySequence),
        NodeVerdict::ZeroCount => r == Err::<Node, NodeError>(NodeError::ZeroRepeatCount),
        NodeVerdict::ZeroSlice(o, l) => r == Err::<Node, NodeError>(NodeError::InvalidSliceRange { offset: o, length: l }),
        NodeVerdict::BadAddress(bv) => r matches Err(NodeError::Address(e)) && binary_result_is(Err::<Address, AddressError>(e), bv),
        NodeVerdict::BadPage(pv) => r matches Err(NodeError::Page(e)) && page_result_is(Err::<(u64, Page), PageError>(e), pv),
    }
}

/// A string holding the characters of a literal
fn message(s: &str) -> (r: String)
    ensures
        r@ == s@,
{
    s.to_owned()
}

impl Node {
    /// Reconstruct a node from its canonical address
    pub fn from_address(addr: &Address) -> (r: Result<Node, NodeError>)
        ensures
            node_result_is(r, node_verdict(addr@)),
    {
        let payload = addr.payload();
        match addr.node_type() {
            NodeType::Data => Ok(Node::Data(copy_bytes(payload))),
            NodeType::Ref => {
                match Address::from_binary(payload) {
                    Ok(target) => Ok(Node::Reference(target)),
                    Err(e) => Err(NodeError::Address(e)),
                }
            },
            NodeType::Sequence => {
                if payload.len() < 4 {
                    return Err(NodeError::InvalidPayload(message("Truncated sequence header")));
                }
                let count = read_be(&payload[0..4]);
                if count == 0 {
                    return Err(NodeError::EmptySequence);
                }
                let mut offset: usize = 4;
                let mut children: Vec<Address> = Vec::new();
                let mut done: u64 = 0;
                while done < count
                    invariant
                        payload@ == addr@.payload,
                        addr@.node_type == NodeType::Sequence,
                        count > 0,
                        4 <= offset <= payload@.len(),
                        done <= count,
                        count == be_value(payload@.subrange(0, 4)),
                        parse_children(payload@, 4, count as nat) == prepend_children(
                            addr_views(children@),
                            parse_children(payload@, offset as int, (count - done) as nat),
                        ),
                    decreases count - done,
                {
                    if payload.len() - offset < 4 {
                        return Err(NodeError::InvalidPayload(message("Truncated child length")));
                    }
                    proof {
                        crate::util::lemma_be_value_bound(payload@.subrange(offset as int, offset + 4));
                        reveal_with_fuel(pow256, 5);
                    }
                    let child_len = read_be(&payload[offset..offset + 4]) as usize;
                    offset = offset + 4;
                    if payload.len() - offset < child_len {
                        return Err(NodeError::InvalidPayload(message("Truncated child binary")));
                    }
                    let child = match Address::from_binary(&payload[offset..offset + child_len]) {
                        Ok(c) => c,
                        Err(e) => return Err(NodeError::Address(e)),
                    };
                    let ghost before = children@;
                    children.push(child);
                    assert(addr_views(children@) =~= addr_views(before).push(child@));
                    assert(addr_views(before) + seq![child@] =~= addr_views(children@));
                    offset = offset + child_len;
                    done = done + 1;
                    proof {
                        lemma_prepend_assoc(addr_views(before), child@, parse_children(payload@, offset as int, (count - done) as nat));
                    }
                }
                assert(addr_views(children@) + Seq::<AddressView>::empty() =~= addr_views(children@));
                Ok(Node::Sequence(children))
            },
            NodeType::Rep => {
                if payload.len() < 8 {
                    return Err(NodeError::InvalidPayload(message("Truncated repeat count")));
                }
                let count = read_be(&payload[0..8]);
                if count == 0 {
                    return Err(NodeError::ZeroRepeatCount);
                }
                match Address::from_binary(&payload[8..payload.len()]) {
                    Ok(target) => Ok(Node::Repeat { target, count }),
                    Err(e) => Err(NodeError::Address(e)),
                }
            },
            NodeType::Slice => {
                if payload.len() < 16 {
                    return Err(NodeError::InvalidPayload(message("Truncated slice header")));
                }
                let offset = read_be(&payload[0..8]);
                let length = read_be(&payload[8..16]);
                if length == 0 {
                    return Err(NodeError::InvalidSliceRange { offset, length });
                }
                match Address::from_binary(&payload[16..payload.len()]) {
                    Ok(target) => Ok(Node::Slice { target, offset, length }),
                    Err(e) => Err(NodeError::Address(e)),
                }
            },
            NodeType::Page => {
                match Page::from_address(addr) {
                    Ok((_, page)) => Ok(Node::Page(page)),
                    Err(e) => Err(NodeError::Page(e)),
                }
            },
        }
    }
}

proof fn lemma_prepend_assoc(done: Seq<AddressView>, a: AddressView, rest: ChildParse)
    ensures
        prepend_children(done, prepend_children(seq![a], rest)) == prepend_children(done.push(a), rest),
{
    match rest {
        ChildParse::Done(r) => {
            assert(done + (seq![a] + r) =~= done.push(a) + r);
        },
        _ => {},
    }
}

/// A node whose canonical address decodes back to it: every address in it is
/// well-formed, a sequence has fewer than 2^32 children each of whose binary
/// form is shorter than 2^32 bytes, and a page holds 1 to 4096 bytes
pub open spec fn node_encodable(n: NodeView) -> bool {
    match n {
        NodeView::Data(_) => true,
        NodeView::Reference(a) => a.wf(),
        NodeView::Sequence(c) => {
            &&& c.len() < 0x1_0000_0000
            &&& forall|i: int| 0 <= i < c.len() ==> (#[trigger] c[i]).wf() && spec_to_binary(c[i]).len() < 0x1_0000_0000
        },
        NodeView::Repeat { target, .. } => target.wf(),
        NodeView::Slice { target, .. } => target.wf(),
        NodeView::Page(d) => page_wf(d),
    }
}

/// The entry of one child in a sequence payload
pub open spec fn child_entry(a: AddressView) -> Seq<u8> {
    be_bytes(spec_to_binary(a).len(), 4) + spec_to_binary(a)
}

proof fn lemma_blob_front(a: AddressView, rest: Seq<AddressView>)
    ensures
        children_blob(seq![a] + rest) == child_entry(a) + children_blob(rest),
    decreases rest.len(),
{
    if rest.len() == 0 {
        assert(seq![a] + rest =~= seq![a]);
        assert(seq![a].drop_last() =~= Seq::<AddressView>::empty());
        assert(children_blob(Seq::<AddressView>::empty()) == Seq::<u8>::empty());
        assert(children_blob(seq![a]) == children_blob(seq![a].drop_last()) + be_bytes(spec_to_binary(a).len(), 4)
            + spec_to_binary(a));
        assert(children_blob(rest) == Seq::<u8>::empty());
        assert(child_entry(a) + children_blob(rest) =~= children_blob(seq![a]));
    } else {
        let r0 = rest.drop_last();
        lemma_blob_front(a, r0);
        assert((seq![a] + rest).drop_last() =~= seq![a] + r0);
        assert((seq![a] + rest).last() == rest.last());
        assert(children_blob(seq![a] + rest) =~= child_entry(a) + children_blob(rest));
    }
}

proof fn lemma_parse_children_blob(p: Seq<u8>, off: int, c: Seq<AddressView>)
    requires
        0 <= off,
        off + children_blob(c).len() <= p.len(),
        p.subrange(off, off + children_blob(c).len()) == children_blob(c),
        forall|i: int| 0 <= i < c.len() ==> (#[trigger] c[i]).wf() && spec_to_binary(c[i]).len() < 0x1_0000_0000,
    ensures
        parse_children(p, off, c.len()) == ChildParse::Done(c),
    decreases c.len(),
{
    if c.len() > 0 {
        let a = c[0];
        let rest = c.drop_first();
        assert(c =~= seq![a] + rest);
        lemma_blob_front(a, rest);
        let bin = spec_to_binary(a);
        let blen = bin.len();
        lemma_be_bytes_len(blen, 4);
        let blob = children_blob(c);
        assert(blob == be_bytes(blen, 4) + bin + children_blob(rest));
        assert(p.subrange(off, off + 4) =~= be_bytes(blen, 4)) by {
            assert forall|k: int| 0 <= k < 4 implies p.subrange(off, off + 4)[k] == be_bytes(blen, 4)[k] by {
                assert(p.subrange(off, off + blob.len())[k] == blob[k]);
            }
        }
        reveal_with_fuel(pow256, 5);
        lemma_be_roundtrip(blen, 4);
        assert(p.subrange(off + 4, off + 4 + blen) =~= bin) by {
            assert forall|k: int| 0 <= k < blen implies p.subrange(off + 4, off + 4 + blen)[k] == bin[k] by {
                assert(p.subrange(off, off + blob.len())[k + 4] == blob[k + 4]);
            }
        }
        assert(c[0].wf());
        lemma_binary_verdict_roundtrip(a);
        let off2 = off + 4 + blen;
        let rb = children_blob(rest);
        assert(p.subrange(off2, off2 + rb.len()) =~= rb) by {
            assert forall|k: int| 0 <= k < rb.len() implies p.subrange(off2, off2 + rb.len())[k] == rb[k] by {
                assert(p.subrange(off, off + blob.len())[k + 4 + blen] == blob[k + 4 + blen]);
            }
        }
        assert forall|i: int| 0 <= i < rest.len() implies (#[trigger] rest[i]).wf() && spec_to_binary(rest[i]).len() < 0x1_0000_0000 by {
            assert(rest[i] == c[i + 1]);
        }
        lemma_parse_children_blob(p, off2, rest);
        assert(((c.len() - 1) as nat) == rest.len());
        assert(off + 4 <= p.len());
        assert(be_value(p.subrange(off, off + 4)) == blen);
        assert(off + 4 + blen <= p.len());
        assert(binary_verdict(p.subrange(off + 4, off + 4 + blen)) == BinaryVerdict::Parsed(a));
        assert(parse_children(p, off, c.len()) == ChildParse::Done(seq![a] + rest));
    } else {
        assert(c =~= Seq::<AddressView>::empty());
    }
}

/// Node round trip: decoding the canonical address of an encodable node gives back that node
pub proof fn lemma_node_roundtrip(n: NodeView)
    requires
        spec_node_address(n) is Ok,
        node_encodable(n),
    ensures
        node_verdict(spec_node_address(n).unwrap()) == NodeVerdict::Parsed(n),
{
    let a = spec_node_address(n).unwrap();
    let p = a.payload;
    match n {
        NodeView::Data(b) => {},
        NodeView::Reference(t) => {
            lemma_binary_verdict_roundtrip(t);
        },
        NodeView::Sequence(c) => {
            lemma_be_bytes_len(c.len(), 4);
            assert(p.subrange(0, 4) =~= be_bytes(c.len(), 4));
            reveal_with_fuel(pow256, 5);
            lemma_be_roundtrip(c.len(), 4);
            assert(p.subrange(4, 4 + children_blob(c).len() as int) =~= children_blob(c));
            lemma_parse_children_blob(p, 4, c);
        },
        NodeView::Repeat { target, count } => {
            lemma_be_bytes_len(count as nat, 8);
            assert(p.subrange(0, 8) =~= be_bytes(count as nat, 8));
            reveal_with_fuel(pow256, 9);
            lemma_be_roundtrip(count as nat, 8);
            assert(p.subrange(8, p.len() as int) =~= spec_to_binary(target));
            lemma_binary_verdict_roundtrip(target);
        },
        NodeView::Slice { target, offset, length } => {
            lemma_be_bytes_len(offset as nat, 8);
            lemma_be_bytes_len(length as nat, 8);
            assert(p.subrange(0, 8) =~= be_bytes(offset as nat, 8));
            assert(p.subrange(8, 16) =~= be_bytes(length as nat, 8));
            reveal_with_fuel(pow256, 9);
            lemma_be_roundtrip(offset as nat, 8);
            lemma_be_roundtrip(length as nat, 8);
            assert(p.subrange(16, p.len() as int) =~= spec_to_binary(target));
            lemma_binary_verdict_roundtrip(target);
        },
        NodeView::Page(d) => {
            lemma_page_verdict_roundtrip(0, d);
        },
    }
}

} // verus!
