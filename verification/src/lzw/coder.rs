//! The Lempel-Ziv-Welch encoder.
//!
//! The encoder follows its input through the dictionary tree for as long
//! as the tree goes, writes the number of the node that it reached, and
//! adds a node for the phrase with the byte at which it stopped; that
//! byte starts the next phrase.
use vstd::prelude::*;
use crate::bits::unpack;
use crate::lzw::MAX_DICT_SIZE;
use crate::lzw::prefix_tree::{PrefixTree, TreeView, grown, initial_tree, tree_wf, lemma_grown_wf};
use crate::lzw::universal_coder::{BitOutputStream, UniversalCoder, padded};

verus! {

/// Where following `input` from `node` ends.
pub struct Walk {
    /// The node reached.
    pub node: usize,
    /// The number of bytes followed.
    pub len: int,
}

/// Follows `input` from `node` for as long as the tree has an edge for
/// the next byte.
pub open spec fn walk(tree: TreeView, node: usize, input: Seq<u8>) -> Walk
    decreases input.len(),
{
    if input.len() == 0 || !tree[node as int].contains_key(input[0]) {
        Walk { node, len: 0 }
    } else {
        let rest = walk(tree, tree[node as int][input[0]], input.skip(1));
        Walk { node: rest.node, len: rest.len + 1 }
    }
}

/// The first phrase of `input`, which must not be empty: the node of its
/// first byte, followed through the tree.
pub open spec fn first_phrase(tree: TreeView, input: Seq<u8>) -> Walk {
    walk(tree, input[0] as usize, input.skip(1))
}

/// The tree after the first phrase of `input` has been coded: it grows by
/// a node for the phrase and the byte that follows it, if a byte follows.
pub open spec fn tree_after_phrase(tree: TreeView, input: Seq<u8>) -> TreeView {
    let phrase = first_phrase(tree, input);
    let rest = input.skip(1 + phrase.len);
    if rest.len() > 0 {
        grown(tree, phrase.node as int, rest[0])
    } else {
        tree
    }
}

/// The nodes that the encoder reaches for the phrases of `input`, one
/// after the other.
pub open spec fn phrases(tree: TreeView, input: Seq<u8>) -> Seq<usize>
    decreases input.len(),
{
    if input.len() == 0 {
        Seq::empty()
    } else {
        let phrase = first_phrase(tree, input);
        proof {
            lemma_walk_len(tree, input[0] as usize, input.skip(1));
        }
        seq![phrase.node] + phrases(tree_after_phrase(tree, input), input.skip(1 + phrase.len))
    }
}

/// The words of the code `C` for the given nodes, each numbered from one.
pub open spec fn words<C: UniversalCoder>(nodes: Seq<usize>) -> Seq<bool>
    decreases nodes.len(),
{
    if nodes.len() == 0 {
        Seq::empty()
    } else {
        C::word((nodes[0] + 1) as nat) + words::<C>(nodes.skip(1))
    }
}

/// The bits of the coding of `input` with the code `C`: the words of the
/// indices of its phrases, and the bits that fill the last byte.
pub open spec fn encode_bits<C: UniversalCoder>(input: Seq<u8>) -> Seq<bool> {
    padded(words::<C>(phrases(initial_tree(), input)), C::fill())
}

/// Following the tree does not take more bytes than there are.
pub proof fn lemma_walk_len(tree: TreeView, node: usize, input: Seq<u8>)
    ensures
        0 <= walk(tree, node, input).len <= input.len(),
    decreases input.len(),
{
    if !(input.len() == 0 || !tree[node as int].contains_key(input[0])) {
        lemma_walk_len(tree, tree[node as int][input[0]], input.skip(1));
    }
}

/// Following the tree ends at one of its nodes and does not take more
/// bytes than there are.
pub proof fn lemma_walk(tree: TreeView, node: usize, input: Seq<u8>)
    requires
        tree_wf(tree),
        node < tree.len(),
    ensures
        walk(tree, node, input).node < tree.len(),
        0 <= walk(tree, node, input).len <= input.len(),
    decreases input.len(),
{
    if !(input.len() == 0 || !tree[node as int].contains_key(input[0])) {
        lemma_walk(tree, tree[node as int][input[0]], input.skip(1));
    }
}

/// Reads bytes and writes their Lempel-Ziv-Welch coding, the dictionary
/// indices as words of the code `C`.
pub struct LZWCoder<C> {
    input_stream: Vec<u8>,
    output_stream: BitOutputStream,
    universal_coder: C,
    saved_byte: Option<u8>,
    tree: PrefixTree,
    input_len: usize,
}

impl<C: UniversalCoder> LZWCoder<C> {
    /// The bytes to encode.
    pub closed spec fn input(&self) -> Seq<u8> {
        self.input_stream@
    }

    /// The number of input bytes that have been read.
    pub closed spec fn consumed(&self) -> nat {
        self.input_len as nat
    }

    /// The input bytes that have not been coded yet: the byte that ended
    /// the last phrase, if there is one, and the bytes that have not been
    /// read.
    pub closed spec fn remaining(&self) -> Seq<u8> {
        match self.saved_byte {
            Some(byte) => seq![byte] + self.input_stream@.skip(self.input_len as int),
            None => self.input_stream@.skip(self.input_len as int),
        }
    }

    /// The dictionary.
    pub closed spec fn tree(&self) -> TreeView {
        self.tree@
    }

    /// The bits written so far.
    pub closed spec fn output_bits(&self) -> Seq<bool> {
        self.output_stream.bits()
    }

    /// The bytes written so far.
    pub closed spec fn output(&self) -> Seq<u8> {
        self.output_stream.bytes()
    }

    /// The coder has not coded anything.
    pub open spec fn is_fresh(&self) -> bool {
        &&& self.remaining() == self.input()
        &&& self.tree() == initial_tree()
        &&& self.output_bits() == Seq::<bool>::empty()
    }

    /// The dictionary and the universal coder are in order, and no more
    /// input has been read than there is.
    pub closed spec fn wf(&self) -> bool {
        &&& tree_wf(self.tree@)
        &&& self.universal_coder.wf()
        &&& self.output_stream.wf()
        &&& self.input_len <= self.input_stream@.len()
    }

    /// A coder that will encode `input_stream` with the words of
    /// `universal_coder`.
    pub fn new(input_stream: Vec<u8>, universal_coder: C) -> (coder: Self)
        requires
            universal_coder.wf(),
        ensures
            coder.wf(),
            coder.is_fresh(),
            coder.input() == input_stream@,
            coder.consumed() == 0,
            coder.output() == Seq::<u8>::empty(),
    {
        let coder = Self {
            tree: PrefixTree::new(),
            input_stream,
            saved_byte: None,
            universal_coder,
            output_stream: BitOutputStream::new(),
            input_len: 0,
        };
        assert(coder.remaining() =~= input_stream@);
        coder
    }

    /// Encodes what is left of the input and fills the last byte of the
    /// output.
    pub fn code_to_end(&mut self)
        requires
            old(self).wf(),
            forall|number: usize| 1 <= number <= MAX_DICT_SIZE ==> C::encodes(number),
        ensures
            final(self).wf(),
            final(self).input() == old(self).input(),
            final(self).remaining() == Seq::<u8>::empty(),
            final(self).consumed() == old(self).input().len(),
            final(self).output_bits() == padded(
                old(self).output_bits() + words::<C>(phrases(old(self).tree(), old(self).remaining())),
                C::fill(),
            ),
            unpack(final(self).output()) == final(self).output_bits(),
            old(self).is_fresh() ==> unpack(final(self).output()) == encode_bits::<C>(
                old(self).input(),
            ),
    {
        let ghost start_bits = self.output_bits();
        let ghost all = words::<C>(phrases(self.tree(), self.remaining()));
        loop
            invariant
                self.wf(),
                self.input() == old(self).input(),
                forall|number: usize| 1 <= number <= MAX_DICT_SIZE ==> C::encodes(number),
                start_bits + all == self.output_bits() + words::<C>(
                    phrases(self.tree(), self.remaining()),
                ),
            ensures
                self.wf(),
                self.input() == old(self).input(),
                self.remaining() == Seq::<u8>::empty(),
                self.consumed() == old(self).input().len(),
                self.output_bits() == start_bits + all,
            decreases self.remaining().len(),
        {
            let ghost before_bits = self.output_bits();
            let ghost before_tree = self.tree();
            let ghost before_rest = self.remaining();
            match self.code() {
                Some(code) => {
                    self.universal_coder.code_number(&mut self.output_stream, code + 1);
                    proof {
                        let nodes = phrases(before_tree, before_rest);
                        assert(nodes.skip(1) =~= phrases(self.tree(), self.remaining()));
                        assert(before_bits + (C::word((code + 1) as nat) + words::<C>(
                            nodes.skip(1),
                        )) =~= before_bits + C::word((code + 1) as nat) + words::<C>(
                            nodes.skip(1),
                        ));
                    }
                },
                None => {
                    proof {
                        assert(self.output_bits() + Seq::<bool>::empty() =~= self.output_bits());
                    }
                    break ;
                },
            }
        }
        self.universal_coder.pad(&mut self.output_stream);
        proof {
            if old(self).is_fresh() {
                assert(start_bits + all =~= all);
            }
        }
    }

    /// The number of input bytes read and the number of bytes written.
    pub fn get_stat(&self) -> (stat: (usize, usize))
        requires
            self.wf(),
        ensures
            stat.0 == self.consumed(),
            stat.1 == self.output().len(),
    {
        (self.input_len, self.output_stream.written_bytes())
    }

    /// The bytes written so far.
    pub fn output_bytes(&self) -> (bytes: &Vec<u8>)
        ensures
            bytes@ == self.output(),
    {
        self.output_stream.as_bytes()
    }

    /// Codes the next phrase: follows the input through the tree, adds a
    /// node for the phrase and the byte at which the tree ended, and
    /// returns the node reached. `None` if no input is left.
    fn code(&mut self) -> (node: Option<usize>)
        requires
            old(self).wf(),
        ensures
            final(self).wf(),
            final(self).input() == old(self).input(),
            final(self).output_stream == old(self).output_stream,
            final(self).universal_coder == old(self).universal_coder,
            match node {
                Some(reached) => {
                    let phrase = first_phrase(old(self).tree(), old(self).remaining());
                    &&& old(self).remaining().len() > 0
                    &&& reached == phrase.node
                    &&& reached < MAX_DICT_SIZE
                    &&& final(self).remaining().len() < old(self).remaining().len()
                    &&& final(self).remaining() == old(self).remaining().skip(1 + phrase.len)
                    &&& final(self).tree() == tree_after_phrase(
                        old(self).tree(),
                        old(self).remaining(),
                    )
                },
                None => {
                    &&& old(self).remaining().len() == 0
                    &&& final(self).remaining() == old(self).remaining()
                    &&& final(self).tree() == old(self).tree()
                    &&& final(self).consumed() == old(self).input().len()
                },
            },
    {
        let ghost start_rest = self.remaining();
        let ghost start_tree = self.tree();
        let start = match self.read() {
            Some(byte) => byte,
            None => {
                return None;
            },
        };
        let mut current_node = start as usize;
        let ghost followed: int = 0;
        proof {
            lemma_walk_len(start_tree, start as usize, start_rest.skip(1));
            assert(self.remaining() =~= start_rest.skip(1));
        }
        loop
            invariant_except_break
                self.tree() == start_tree,
                self.saved_byte.is_none(),
            invariant
                self.wf(),
                self.input() == old(self).input(),
                self.output_stream == old(self).output_stream,
                self.universal_coder == old(self).universal_coder,
                start_rest.len() > 0,
                current_node < start_tree.len(),
                0 <= followed,
                1 + followed <= start_rest.len(),
                self.remaining() == start_rest.skip(1 + followed),
                first_phrase(start_tree, start_rest).node == walk(
                    start_tree,
                    current_node,
                    self.remaining(),
                ).node,
                first_phrase(start_tree, start_rest).len == followed + walk(
                    start_tree,
                    current_node,
                    self.remaining(),
                ).len,
            ensures
                self.wf(),
                self.input() == old(self).input(),
                self.output_stream == old(self).output_stream,
                self.universal_coder == old(self).universal_coder,
                current_node < MAX_DICT_SIZE,
                current_node == first_phrase(start_tree, start_rest).node,
                self.remaining() == start_rest.skip(1 + first_phrase(start_tree, start_rest).len),
                self.tree() == tree_after_phrase(start_tree, start_rest),
            decreases self.remaining().len(),
        {
            let ghost before = self.remaining();
            match self.read() {
                Some(byte) => {
                    let maybe_next_node = self.tree.travel(current_node, byte);
                    match maybe_next_node {
                        Some(next_node) => {
                            proof {
                                assert(start_rest.skip(1 + followed).skip(1) =~= start_rest.skip(
                                    1 + followed + 1,
                                ));
                                followed = followed + 1;
                            }
                            current_node = next_node;
                        },
                        None => {
                            self.save_byte(byte);
                            proof {
                                assert(self.remaining() =~= before);
                                lemma_grown_wf(start_tree, current_node as int, byte);
                            }
                            self.tree.append(current_node, byte);
                            break ;
                        },
                    }
                },
                None => {
                    break ;
                },
            }
        }
        Some(current_node)
    }

    /// Puts a byte back, to be read next.
    fn save_byte(&mut self, byte: u8)
        requires
            old(self).saved_byte.is_none(),
        ensures
            final(self).saved_byte == Some(byte),
            final(self).input_stream == old(self).input_stream,
            final(self).output_stream == old(self).output_stream,
            final(self).universal_coder == old(self).universal_coder,
            final(self).tree == old(self).tree,
            final(self).input_len == old(self).input_len,
    {
        self.saved_byte = Some(byte)
    }

    /// The next byte: the one that was put back, or a new one.
    fn read(&mut self) -> (byte: Option<u8>)
        requires
            old(self).input_len <= old(self).input_stream@.len(),
        ensures
            final(self).input_stream == old(self).input_stream,
            final(self).output_stream == old(self).output_stream,
            final(self).universal_coder == old(self).universal_coder,
            final(self).tree == old(self).tree,
            final(self).saved_byte.is_none(),
            final(self).input_len <= final(self).input_stream@.len(),
            match byte {
                Some(b) => {
                    &&& old(self).remaining().len() > 0
                    &&& b == old(self).remaining()[0]
                    &&& final(self).remaining() == old(self).remaining().skip(1)
                },
                None => {
                    &&& old(self).remaining().len() == 0
                    &&& final(self).remaining() == old(self).remaining()
                    &&& final(self).input_len == old(self).input_stream@.len()
                },
            },
    {
        if self.saved_byte.is_some() {
            let byte = self.saved_byte;
            self.saved_byte = None;
            proof {
                assert(self.remaining() =~= old(self).remaining().skip(1));
            }
            byte
        } else {
            self.read_new_byte()
        }
    }

    /// The next byte of the input, if there is one.
    fn read_new_byte(&mut self) -> (byte: Option<u8>)
        requires
            old(self).input_len <= old(self).input_stream@.len(),
            old(self).saved_byte.is_none(),
        ensures
            final(self).input_stream == old(self).input_stream,
            final(self).output_stream == old(self).output_stream,
            final(self).universal_coder == old(self).universal_coder,
            final(self).tree == old(self).tree,
            final(self).saved_byte.is_none(),
            final(self).input_len <= final(self).input_stream@.len(),
            match byte {
                Some(b) => {
                    &&& old(self).remaining().len() > 0
                    &&& b == old(self).remaining()[0]
                    &&& final(self).remaining() == old(self).remaining().skip(1)
                },
                None => {
                    &&& old(self).remaining().len() == 0
                    &&& final(self).remaining() == old(self).remaining()
                    &&& final(self).input_len == old(self).input_stream@.len()
                },
            },
    {
        if self.input_len < self.input_stream.len() {
            let byte = self.input_stream[self.input_len];
            self.input_len = self.input_len + 1;
            proof {
                assert(self.remaining() =~= old(self).remaining().skip(1));
            }
            Some(byte)
        } else {
            None
        }
    }
}

} // verus!
