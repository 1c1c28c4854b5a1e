//! The canonical-Huffman decoding trie.
//!
//! A trie maps bit paths (branch left on 0, right on 1) to symbols.  Its
//! mathematical model is the partial function `tree_get` from bit paths
//! to symbols; `construct_from_bitlengths` builds the trie that realises
//! the canonical code assignment of RFC 1951: codes of one bit length are
//! numbered consecutively, starting where the previous length's codes
//! ended, shifted left by one.

use vstd::arithmetic::div_mod::lemma_breakdown;
use vstd::arithmetic::div_mod::lemma_div_denominator;
use vstd::arithmetic::div_mod::lemma_fundamental_div_mod_converse;
use vstd::arithmetic::power2::lemma2_to64;
use vstd::arithmetic::power2::lemma_pow2_pos;
use vstd::arithmetic::power2::lemma_pow2_strictly_increases;
use vstd::arithmetic::power2::lemma_pow2_unfold;
use vstd::arithmetic::power2::pow2;
use vstd::prelude::*;

use crate::bits::low_bits;
use crate::bits::ByteStream;
use crate::ZipError;

verus! {

/// One node of the decoding trie.  A node with no children is a leaf;
/// a leaf constructed by canonical insertion always carries a symbol.
#[derive(Debug)]
pub struct Node {
    pub(crate) _left: Option<Box<Node>>,
    pub(crate) _right: Option<Box<Node>>,
    pub(crate) _value: Option<u16>,
}

/// The symbol stored at the end of `path`, if a node sits there and
/// holds one.
pub closed spec fn spec_get(n: Node, path: Seq<bool>) -> Option<u16>
    decreases path.len(),
{
    if path.len() == 0 {
        n._value
    } else {
        match (if path[0] {
            n._right
        } else {
            n._left
        }) {
            Option::None => Option::None,
            Option::Some(c) => spec_get(*c, path.skip(1)),
        }
    }
}

/// The node with no children and no symbol.
pub closed spec fn empty_node() -> Node {
    Node { _left: Option::None, _right: Option::None, _value: Option::None }
}

/// An optional node, with absence read as the empty node.
pub closed spec fn opt_node(o: Option<Box<Node>>) -> Node {
    match o {
        Option::None => empty_node(),
        Option::Some(c) => *c,
    }
}

/// The trie after storing `value` at the end of `path`, with empty
/// nodes created along the way.
pub closed spec fn spec_insert(n: Node, path: Seq<bool>, value: u16) -> Node
    decreases path.len(),
{
    if path.len() == 0 {
        Node { _left: n._left, _right: n._right, _value: Option::Some(value) }
    } else {
        let base = opt_node(
            if path[0] {
                n._right
            } else {
                n._left
            },
        );
        let sub = Option::Some(Box::new(spec_insert(base, path.skip(1), value)));
        if path[0] {
            Node { _left: n._left, _right: sub, _value: n._value }
        } else {
            Node { _left: sub, _right: n._right, _value: n._value }
        }
    }
}

pub proof fn lemma_empty_node_get(p: Seq<bool>)
    ensures
        spec_get(empty_node(), p) == Option::<u16>::None,
{
}

/// What insertion does to the path-to-symbol map: exactly the inserted
/// path gains the new symbol; every other path keeps what it had.
pub proof fn lemma_spec_insert_get(n: Node, path: Seq<bool>, value: u16)
    ensures
        forall|p: Seq<bool>|
            #[trigger] spec_get(spec_insert(n, path, value), p) == (if p == path {
                Option::Some(value)
            } else {
                spec_get(n, p)
            }),
    decreases path.len(),
{
    let n2 = spec_insert(n, path, value);
    if path.len() == 0 {
        assert forall|p: Seq<bool>|
            #[trigger] spec_get(n2, p) == (if p == path {
                Option::Some(value)
            } else {
                spec_get(n, p)
            }) by {
            if p.len() == 0 {
                assert(p =~= path);
            } else {
                assert(p != path);
            }
        }
    } else {
        let b = path[0];
        let tail = path.skip(1);
        let base = opt_node(
            if b {
                n._right
            } else {
                n._left
            },
        );
        lemma_spec_insert_get(base, tail, value);
        assert forall|p: Seq<bool>|
            #[trigger] spec_get(n2, p) == (if p == path {
                Option::Some(value)
            } else {
                spec_get(n, p)
            }) by {
            if p.len() == 0 {
                assert(p != path);
            } else {
                let q = p.skip(1);
                if p[0] == b {
                    assert(spec_get(n2, p) == spec_get(spec_insert(base, tail, value), q));
                    assert(spec_get(n, p) == spec_get(base, q)) by {
                        lemma_empty_node_get(q);
                    }
                    if q == tail {
                        assert(p =~= path) by {
                            assert(p.len() == 1 + q.len() == path.len());
                            assert(p[0] == path[0]);
                            assert(forall|k: int|
                                1 <= k < p.len() ==> p[k] == p.skip(1)[k - 1] && path[k]
                                    == path.skip(1)[k - 1]);
                        }
                    } else {
                        assert(p != path) by {
                            assert(path.skip(1) == tail);
                        }
                    }
                } else {
                    assert(p != path);
                }
            }
        }
    }
}

/// One bit-by-bit walk of the trie along the given bit stream: follows
/// one bit per branching node until a leaf is reached.  Fails with
/// `CorruptStream` on a missing child or a valueless leaf, and with
/// `EndOfStream` when the bits run out first.  On success returns the
/// symbol and the bits not consumed.
pub closed spec fn spec_walk(n: Node, bits: Seq<bool>) -> Result<(u16, Seq<bool>), ZipError>
    decreases bits.len(),
{
    if n._left is None && n._right is None {
        match n._value {
            Option::Some(v) => Ok((v, bits)),
            Option::None => Err(ZipError::CorruptStream),
        }
    } else if bits.len() == 0 {
        Err(ZipError::EndOfStream)
    } else {
        match (if bits[0] {
            n._right
        } else {
            n._left
        }) {
            Option::None => Err(ZipError::CorruptStream),
            Option::Some(c) => spec_walk(*c, bits.skip(1)),
        }
    }
}

/// A trie is modelled by the partial map it realises from bit paths to
/// symbols.
pub open spec fn tree_matches_map(n: Node, m: Map<Seq<bool>, u16>) -> bool {
    forall|p: Seq<bool>|
        #[trigger] spec_get(n, p) == (if m.dom().contains(p) {
            Option::Some(m[p])
        } else {
            Option::<u16>::None
        })
}

impl Node {
    /// A node with no children and no symbol.
    pub fn new() -> (r: Self)
        ensures
            r == empty_node(),
            forall|p: Seq<bool>| #[trigger] spec_get(r, p) == Option::<u16>::None,
    {
        let r = Self { _left: None, _right: None, _value: None };
        proof {
            assert forall|p: Seq<bool>| #[trigger] spec_get(r, p) == Option::<u16>::None by {
                if p.len() == 0 {
                } else {
                }
            }
        }
        r
    }
}

/// The binary decoding trie.
#[derive(Debug)]
pub struct HuffmanTree {
    pub(crate) root_node: Box<Node>,
}

/// Number of entries equal to `l` among the first `upto` bit lengths.
pub open spec fn count_upto(lengths: Seq<u16>, l: u16, upto: int) -> nat
    decreases upto,
{
    if upto <= 0 {
        0
    } else {
        count_upto(lengths, l, upto - 1) + (if upto - 1 < lengths.len() && lengths[upto - 1] == l {
            1nat
        } else {
            0nat
        })
    }
}

/// The first canonical code of bit length `l`: zero for length one, and
/// for longer lengths the previous length's first code plus its symbol
/// count, shifted left by one.
pub open spec fn first_code(lengths: Seq<u16>, l: nat) -> nat
    decreases l,
{
    if l <= 1 {
        0
    } else {
        (first_code(lengths, (l - 1) as nat) + count_upto(
            lengths,
            (l - 1) as u16,
            lengths.len() as int,
        )) * 2
    }
}

/// The canonical code of symbol index `i`: the first code of its bit
/// length, advanced once for every earlier symbol of the same length.
pub open spec fn assigned_code(lengths: Seq<u16>, i: int) -> nat {
    first_code(lengths, lengths[i] as nat) + count_upto(lengths, lengths[i], i)
}

/// The code-to-symbol map after assigning canonical codes to the first
/// `upto` symbols; symbols of bit length zero get no code.
pub open spec fn code_map(values: Seq<u16>, lengths: Seq<u16>, upto: int) -> Map<Seq<bool>, u16>
    decreases upto,
{
    if upto <= 0 {
        Map::empty()
    } else {
        let m = code_map(values, lengths, upto - 1);
        let l: u16 = if upto - 1 < lengths.len() {
            lengths[upto - 1]
        } else {
            0
        };
        if l == 0 {
            m
        } else {
            m.insert(low_bits(assigned_code(lengths, upto - 1), l as nat), values[upto - 1])
        }
    }
}

/// The trie after canonically assigning codes to the first `upto`
/// symbols, in ascending symbol order.
pub closed spec fn spec_construct(values: Seq<u16>, lengths: Seq<u16>, upto: int) -> Node
    decreases upto,
{
    if upto <= 0 {
        empty_node()
    } else {
        let prev = spec_construct(values, lengths, upto - 1);
        let l: u16 = if upto - 1 < lengths.len() {
            lengths[upto - 1]
        } else {
            0
        };
        if l == 0 {
            prev
        } else {
            spec_insert(prev, low_bits(assigned_code(lengths, upto - 1), l as nat), values[upto
                - 1])
        }
    }
}

proof fn lemma_count_upto_le(lengths: Seq<u16>, l: u16, upto: int)
    ensures
        count_upto(lengths, l, upto) <= (if upto <= 0 {
            0int
        } else {
            upto
        }),
    decreases upto,
{
    if upto > 0 {
        lemma_count_upto_le(lengths, l, upto - 1);
    }
}

proof fn lemma_first_code_bound(lengths: Seq<u16>, l: nat)
    requires
        1 <= l <= 16,
    ensures
        first_code(lengths, l) <= (pow2(l) - 2) * lengths.len(),
        pow2(l) >= 2,
    decreases l,
{
    lemma2_to64();
    if l == 1 {
    } else {
        lemma_first_code_bound(lengths, (l - 1) as nat);
        lemma_count_upto_le(lengths, (l - 1) as u16, lengths.len() as int);
        lemma_pow2_unfold(l);
        let n = lengths.len() as int;
        let fc = first_code(lengths, (l - 1) as nat) as int;
        let c = count_upto(lengths, (l - 1) as u16, lengths.len() as int) as int;
        let p = pow2((l - 1) as nat) as int;
        assert(first_code(lengths, l) == (fc + c) * 2);
        assert((fc + c) * 2 <= (2 * p - 2) * n) by (nonlinear_arith)
            requires
                fc <= (p - 2) * n,
                0 <= c <= n,
                0 <= fc,
                n >= 0,
                p >= 2,
        ;
    }
}

/// Head and tail of a low-bits sequence: the head is the highest of the
/// `n` bits, the tail the remaining `n - 1`.
pub proof fn lemma_low_bits_head_tail(v: nat, n: nat)
    requires
        n >= 1,
    ensures
        low_bits(v, n).len() == n,
        low_bits(v, n)[0] == ((v / pow2((n - 1) as nat)) % 2 == 1),
        low_bits(v, n).skip(1) == low_bits(v, (n - 1) as nat),
    decreases n,
{
    crate::bits::lemma_low_bits_len(v, n);
    crate::bits::lemma_low_bits_len(v, (n - 1) as nat);
    if n == 1 {
        lemma2_to64();
        assert(low_bits(v, 1) =~= Seq::empty().push(v % 2 == 1));
        assert(low_bits(v, 1).skip(1) =~= low_bits(v, 0));
    } else {
        lemma_low_bits_head_tail(v / 2, (n - 1) as nat);
        lemma_pow2_unfold((n - 1) as nat);
        lemma_pow2_pos((n - 2) as nat);
        lemma_div_denominator(v as int, 2, pow2((n - 2) as nat) as int);
        assert(low_bits(v, n)[0] == low_bits(v / 2, (n - 1) as nat)[0]);
        assert(low_bits(v, n).skip(1) =~= low_bits(v / 2, (n - 1) as nat).skip(1).push(v % 2 == 1));
        assert(low_bits(v / 2, (n - 2) as nat).push(v % 2 == 1) == low_bits(v, (n - 1) as nat));
    }
}

/// Truncating a value to at least `n` bits does not change its low `n`
/// bits.
pub proof fn lemma_low_bits_mod(v: nat, m: nat, n: nat)
    requires
        n <= m,
    ensures
        low_bits(v % pow2(m), n) == low_bits(v, n),
    decreases n,
{
    if n == 0 {
        crate::bits::lemma_low_bits_len(v % pow2(m), 0);
        crate::bits::lemma_low_bits_len(v, 0);
        assert(low_bits(v % pow2(m), n) =~= low_bits(v, n));
    } else {
        lemma_pow2_unfold(m);
        lemma_pow2_pos((m - 1) as nat);
        lemma_breakdown(v as int, 2, pow2((m - 1) as nat) as int);
        let z = pow2((m - 1) as nat) as int;
        assert(v as int % (2 * z) == 2 * ((v as int / 2) % z) + v as int % 2);
        lemma_fundamental_div_mod_converse(
            (v as int) % (2 * z),
            2,
            (v as int / 2) % z,
            v as int % 2,
        );
        lemma_low_bits_mod(v / 2, (m - 1) as nat, (n - 1) as nat);
        assert(low_bits(v % pow2(m), n) =~= low_bits(v, n));
    }
}

impl HuffmanTree {
    /// The trie's root node, for stating walks over it.
    pub closed spec fn spec_root(self) -> Node {
        *self.root_node
    }

    /// The symbol this trie holds at the end of `path`.
    pub closed spec fn tree_get(self, path: Seq<bool>) -> Option<u16> {
        spec_get(*self.root_node, path)
    }

    /// `tree_get` is `spec_get` on the trie's root: the bridge between
    /// contracts stated over `tree_get` (such as `get_value`'s) and
    /// those stated over `spec_root` (such as
    /// `construct_from_bitlengths`'s code map or a `spec_walk`).
    pub proof fn lemma_tree_get_is_root_get(self, path: Seq<bool>)
        ensures
            self.tree_get(path) == spec_get(self.spec_root(), path),
    {
    }

    /// An empty trie: no path holds a symbol.
    pub fn new() -> (r: Self)
        ensures
            r.spec_root() == empty_node(),
            tree_matches_map(r.spec_root(), Map::empty()),
            forall|p: Seq<bool>| #[trigger] r.tree_get(p) == Option::<u16>::None,
    {
        Self { root_node: Box::new(Node::new()) }
    }

    /// Stores `value` at the path spelled by the low `address_len` bits
    /// of `address`, most significant bit first, creating nodes along
    /// the way; any symbol already on that exact path is replaced, and
    /// every other path keeps its symbol.
    pub fn insert(&mut self, address: u16, address_len: u16, value: u16)
        requires
            address_len <= 16,
        ensures
            final(self).spec_root() == spec_insert(
                old(self).spec_root(),
                low_bits(address as nat, address_len as nat),
                value,
            ),
            forall|p: Seq<bool>|
                #[trigger] final(self).tree_get(p) == (if p == low_bits(
                    address as nat,
                    address_len as nat,
                ) {
                    Option::Some(value)
                } else {
                    old(self).tree_get(p)
                }),
    {
        let mask = pow2_u16(address_len);
        insert_node(&mut self.root_node, address, address_len, mask, value);
        proof {
            lemma_spec_insert_get(
                old(self).spec_root(),
                low_bits(address as nat, address_len as nat),
                value,
            );
        }
    }

    /// The symbol at the path spelled by the low `address_len` bits of
    /// `address`, or `None` when no node or no symbol sits there.
    pub fn get_value(self, address: u16, address_len: u8) -> (r: Option<u16>)
        requires
            address_len <= 16,
        ensures
            r == self.tree_get(low_bits(address as nat, address_len as nat)),
    {
        let mask = pow2_u16(address_len as u16);
        get_node(&self.root_node, address, address_len as u16, mask)
    }

    /// Builds the trie of the canonical code assignment for the given
    /// symbols and their bit lengths; a symbol with bit length zero is
    /// left out.  Extra symbols beyond the lengths array count as bit
    /// length zero, extra lengths beyond the symbols assign no code.
    pub fn construct_from_bitlengths(values: &[u16], bit_lengths: &[u16]) -> (r: Self)
        requires
            1 <= bit_lengths@.len() <= 0x8000,
            forall|i: int| 0 <= i < bit_lengths@.len() ==> (#[trigger] bit_lengths@[i]) <= 15,
        ensures
            r.spec_root() == spec_construct(values@, bit_lengths@, values@.len() as int),
            tree_matches_map(r.spec_root(), code_map(values@, bit_lengths@, values@.len() as int)),
    {
        let ghost lens = bit_lengths@;
        let nl = bit_lengths.len();
        proof {
            lemma2_to64();
        }
        // How many symbols share each bit length.
        let mut counts: Vec<usize> = Vec::new();
        for z in 0..16usize
            invariant
                counts@.len() == z,
                forall|l: int| 0 <= l < z ==> counts@[l] == 0,
        {
            counts.push(0);
        }
        for i in 0..nl
            invariant
                nl == lens.len() <= 0x8000,
                lens == bit_lengths@,
                forall|j: int| 0 <= j < lens.len() ==> (#[trigger] lens[j]) <= 15,
                counts@.len() == 16,
                forall|l: int|
                    0 <= l < 16 ==> (#[trigger] counts@[l]) == count_upto(lens, l as u16, i as int),
        {
            proof {
                lemma_count_upto_le(lens, lens[i as int], i as int);
            }
            let l = bit_lengths[i] as usize;
            let c = counts[l];
            counts.set(l, c + 1);
        }
        // The first canonical code of each bit length.
        let mut next_code: Vec<u32> = Vec::new();
        for z in 0..16usize
            invariant
                next_code@.len() == z,
                forall|l: int| 0 <= l < z ==> next_code@[l] == 0,
        {
            next_code.push(0);
        }
        proof {
            lemma2_to64();
        }
        for l in 2..16usize
            invariant
                nl == lens.len() <= 0x8000,
                counts@.len() == 16,
                forall|j: int|
                    0 <= j < 16 ==> (#[trigger] counts@[j]) == count_upto(
                        lens,
                        j as u16,
                        lens.len() as int,
                    ),
                next_code@.len() == 16,
                forall|j: int| 0 <= j < l ==> (#[trigger] next_code@[j]) == first_code(lens, j as nat),
        {
            proof {
                let n = lens.len() as int;
                lemma_first_code_bound(lens, (l - 1) as nat);
                lemma_count_upto_le(lens, (l - 1) as u16, n);
                lemma_pow2_strictly_increases((l - 1) as nat, 15);
                lemma2_to64();
                let fc = first_code(lens, (l - 1) as nat) as int;
                let c = count_upto(lens, (l - 1) as u16, n) as int;
                let p = pow2((l - 1) as nat) as int;
                assert((fc + c) * 2 < 0x80000000int) by (nonlinear_arith)
                    requires
                        fc <= (p - 2) * n,
                        0 <= c <= n,
                        0 <= fc,
                        0 <= n <= 0x8000,
                        2 <= p <= 0x8000,
                ;
            }
            let v = (next_code[l - 1] + counts[l - 1] as u32) * 2;
            next_code.set(l, v);
        }
        // Walk the symbols in ascending order, handing each the next
        // code of its length.
        let mut ht = Self::new();
        let nv = values.len();
        for i in 0..nv
            invariant
                nv == values@.len(),
                nl == lens.len() <= 0x8000,
                lens == bit_lengths@,
                forall|j: int| 0 <= j < lens.len() ==> (#[trigger] lens[j]) <= 15,
                counts@.len() == 16,
                next_code@.len() == 16,
                forall|j: int|
                    1 <= j < 16 ==> (#[trigger] next_code@[j]) == first_code(lens, j as nat)
                        + count_upto(lens, j as u16, i as int),
                ht.spec_root() == spec_construct(values@, lens, i as int),
                tree_matches_map(ht.spec_root(), code_map(values@, lens, i as int)),
        {
            let l: u16 = if i < nl {
                bit_lengths[i]
            } else {
                0
            };
            if l != 0 {
                proof {
                    let n = lens.len() as int;
                    lemma_first_code_bound(lens, l as nat);
                    lemma_count_upto_le(lens, l, i as int);
                    lemma_count_upto_le(lens, l, n);
                    lemma_count_upto_mono(lens, l, i as int, n);
                    lemma_pow2_strictly_increases(l as nat, 16);
                    lemma2_to64();
                    let fc = first_code(lens, l as nat) as int;
                    let ci = count_upto(lens, l, i as int) as int;
                    let p = pow2(l as nat) as int;
                    assert(fc + ci + 1 < 0x80000000int) by (nonlinear_arith)
                        requires
                            fc <= (p - 2) * n,
                            0 <= ci <= n,
                            0 <= n <= 0x8000,
                            2 <= p <= 0x10000,
                    ;
                }
                let code = next_code[l as usize];
                let short_code = (code % 0x10000) as u16;
                let ghost prev = ht;
                ht.insert(short_code, l, values[i]);
                next_code.set(l as usize, code + 1);
                proof {
                    lemma_low_bits_mod(code as nat, 16, l as nat);
                    assert(code == assigned_code(lens, i as int));
                    assert(low_bits(short_code as nat, l as nat) == low_bits(
                        assigned_code(lens, i as int),
                        l as nat,
                    ));
                    let m2 = code_map(values@, lens, i + 1);
                    assert(m2 == code_map(values@, lens, i as int).insert(
                        low_bits(assigned_code(lens, i as int), l as nat),
                        values@[i as int],
                    ));
                    assert forall|p: Seq<bool>|
                        #[trigger] spec_get(ht.spec_root(), p) == (if m2.dom().contains(p) {
                            Option::Some(m2[p])
                        } else {
                            Option::<u16>::None
                        }) by {
                        assert(ht.tree_get(p) == (if p == low_bits(short_code as nat, l as nat) {
                            Option::<u16>::Some(values@[i as int])
                        } else {
                            prev.tree_get(p)
                        }));
                        assert(spec_get(prev.spec_root(), p) == (if code_map(
                            values@,
                            lens,
                            i as int,
                        ).dom().contains(p) {
                            Option::Some(code_map(values@, lens, i as int)[p])
                        } else {
                            Option::<u16>::None
                        }));
                    }
                    assert forall|j: int| 1 <= j < 16 implies (#[trigger] next_code@[j])
                        == first_code(lens, j as nat) + count_upto(lens, j as u16, i + 1) by {}
                }
            } else {
                proof {
                    assert(code_map(values@, lens, i + 1) == code_map(values@, lens, i as int));
                    assert forall|j: int| 1 <= j < 16 implies (#[trigger] next_code@[j])
                        == first_code(lens, j as nat) + count_upto(lens, j as u16, i + 1) by {}
                }
            }
        }
        ht
    }
}

proof fn lemma_count_upto_mono(lengths: Seq<u16>, l: u16, a: int, b: int)
    requires
        a <= b,
    ensures
        count_upto(lengths, l, a) <= count_upto(lengths, l, b),
    decreases b - a,
{
    if a < b {
        lemma_count_upto_mono(lengths, l, a, b - 1);
    }
}

/// Two to the `n`, executably, saturating wide enough for a 16-bit code.
fn pow2_u16(n: u16) -> (r: u16)
    requires
        n <= 16,
    ensures
        n >= 1 ==> r as nat == pow2((n - 1) as nat),
{
    proof {
        lemma2_to64();
    }
    if n == 0 {
        return 1;
    }
    let mut r: u16 = 1;
    let mut j: u16 = 0;
    while j < n - 1
        invariant
            n <= 16,
            j <= n - 1,
            r as nat == pow2(j as nat),
        decreases n - 1 - j,
    {
        proof {
            lemma_pow2_unfold((j + 1) as nat);
            lemma_pow2_strictly_increases((j + 1) as nat, 16);
            lemma2_to64();
        }
        r = r * 2;
        j = j + 1;
    }
    r
}

fn insert_opt(node_opt: &mut Option<Box<Node>>, address: u16, len: u16, mask: u16, value: u16)
    requires
        len <= 16,
        len >= 1 ==> mask as nat == pow2((len - 1) as nat),
    ensures
        *final(node_opt) == Option::Some(
            Box::new(
                spec_insert(
                    opt_node(*old(node_opt)),
                    low_bits(address as nat, len as nat),
                    value,
                ),
            ),
        ),
    decreases len, 1int,
{
    let mut n: Box<Node> = match node_opt.take() {
        Option::None => Box::new(Node::new()),
        Option::Some(b) => b,
    };
    proof {
        assert(*n == opt_node(*old(node_opt)));
    }
    insert_node(&mut n, address, len, mask, value);
    *node_opt = Some(n);
}

fn insert_node(node: &mut Box<Node>, address: u16, len: u16, mask: u16, value: u16)
    requires
        len <= 16,
        len >= 1 ==> mask as nat == pow2((len - 1) as nat),
    ensures
        **final(node) == spec_insert(**old(node), low_bits(address as nat, len as nat), value),
    decreases len, 0int,
{
    let ghost path = low_bits(address as nat, len as nat);
    proof {
        crate::bits::lemma_low_bits_len(address as nat, len as nat);
    }
    if len == 0 {
        node._value = Some(value);
        proof {
            assert(path =~= Seq::<bool>::empty());
            assert(**node == spec_insert(**old(node), path, value));
        }
    } else {
        proof {
            lemma_low_bits_head_tail(address as nat, len as nat);
            crate::bits::lemma_low_bits_len(address as nat, (len - 1) as nat);
            lemma_pow2_pos((len - 1) as nat);
            if len >= 2 {
                lemma_pow2_unfold((len - 1) as nat);
            } else {
                lemma2_to64();
            }
        }
        let b = (address / mask) % 2 == 1;
        let ghost before = **node;
        proof {
            assert(path[0] == b);
        }
        if b {
            insert_opt(&mut node._right, address, len - 1, mask / 2, value);
        } else {
            insert_opt(&mut node._left, address, len - 1, mask / 2, value);
        }
        proof {
            assert(path.skip(1) == low_bits(address as nat, (len - 1) as nat));
            assert(**node == spec_insert(before, path, value));
        }
    }
}

fn get_node(node: &Box<Node>, address: u16, len: u16, mask: u16) -> (r: Option<u16>)
    requires
        len <= 16,
        len >= 1 ==> mask as nat == pow2((len - 1) as nat),
    ensures
        r == spec_get(**node, low_bits(address as nat, len as nat)),
    decreases len,
{
    let ghost path = low_bits(address as nat, len as nat);
    proof {
        crate::bits::lemma_low_bits_len(address as nat, len as nat);
    }
    if len == 0 {
        proof {
            assert(path =~= Seq::<bool>::empty());
        }
        node._value
    } else {
        proof {
            lemma_low_bits_head_tail(address as nat, len as nat);
            lemma_pow2_pos((len - 1) as nat);
            if len >= 2 {
                lemma_pow2_unfold((len - 1) as nat);
            } else {
                lemma2_to64();
            }
        }
        let b = (address / mask) % 2 == 1;
        let child = if b {
            &node._right
        } else {
            &node._left
        };
        match child {
            Option::None => Option::None,
            Option::Some(c) => get_node(c, address, len - 1, mask / 2),
        }
    }
}

impl ByteStream {
    /// Reads one symbol by walking the trie from its root, one stream
    /// bit per branch, until a leaf is reached.
    pub fn read_next_symbol(&mut self, tree: &HuffmanTree) -> (r: Result<u16, ZipError>)
        requires
            old(self).wf(),
        ensures
            final(self).wf(),
            match spec_walk(tree.spec_root(), old(self).remaining()) {
                Ok(vr) => r == Ok::<u16, ZipError>(vr.0) && final(self).remaining() == vr.1,
                Err(e) => r == Err::<u16, ZipError>(e),
            },
    {
        let mut cur: &Node = &tree.root_node;
        loop
            invariant
                self.wf(),
                spec_walk(tree.spec_root(), old(self).remaining()) == spec_walk(
                    *cur,
                    self.remaining(),
                ),
            decreases self.remaining().len(),
        {
            if cur._right.is_some() || cur._left.is_some() {
                let b = match self.read_bit() {
                    Ok(b) => b,
                    Err(e) => {
                        return Err(e);
                    },
                };
                let child = if b {
                    &cur._right
                } else {
                    &cur._left
                };
                match child {
                    Option::None => {
                        return Err(ZipError::CorruptStream);
                    },
                    Option::Some(c) => {
                        cur = c;
                    },
                }
            } else {
                match cur._value {
                    Option::Some(v) => {
                        return Ok(v);
                    },
                    Option::None => {
                        return Err(ZipError::CorruptStream);
                    },
                }
            }
        }
    }
}

} // verus!

