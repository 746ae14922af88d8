//! Nibble paths: positions in a state trie, one hexadecimal digit per step from the root.
use vstd::prelude::*;

use crate::primitives::B256;

verus! {

/// The longest path: the 64 nibbles of a 32-byte key.
pub const MAX_NIBBLES: usize = 64;

/// `s` is a path: at most 64 nibbles, each below 16.
pub open spec fn is_path(s: Seq<u8>) -> bool {
    &&& s.len() <= MAX_NIBBLES
    &&& all_nibbles(s)
}

/// Every element of `s` is a nibble.
pub open spec fn all_nibbles(s: Seq<u8>) -> bool {
    forall|i: int| 0 <= i < s.len() ==> s[i] < 16
}

/// `s` begins with `prefix`.
pub open spec fn starts_with(s: Seq<u8>, prefix: Seq<u8>) -> bool {
    &&& prefix.len() <= s.len()
    &&& forall|i: int| 0 <= i < prefix.len() ==> s[i] == prefix[i]
}

/// The nibbles of `key`, the high half of each byte first.
pub open spec fn unpacked(key: Seq<u8>) -> Seq<u8> {
    Seq::new(
        key.len() * 2,
        |i: int|
            if i % 2 == 0 {
                (key[i / 2] / 16) as u8
            } else {
                (key[i / 2] % 16) as u8
            },
    )
}

/// The nibble of `path` at `i`, zero past its end.
pub open spec fn padded_nibble(path: Seq<u8>, i: int) -> u8 {
    if 0 <= i < path.len() {
        path[i]
    } else {
        0
    }
}

/// `path` padded with zero nibbles to a 32-byte key.
pub open spec fn seek_key(path: Seq<u8>) -> Seq<u8> {
    Seq::new(
        32,
        |i: int| (padded_nibble(path, 2 * i) * 16 + padded_nibble(path, 2 * i + 1)) as u8,
    )
}

/// The lower-case hexadecimal digit of a nibble.
pub open spec fn hex_char(nibble: u8) -> char {
    if nibble < 10 {
        (48 + nibble) as char
    } else {
        (87 + nibble) as char
    }
}

/// One lower-case hexadecimal digit per nibble.
pub open spec fn hex_of(path: Seq<u8>) -> Seq<char> {
    Seq::new(path.len(), |i: int| hex_char(path[i]))
}

/// The value of a hexadecimal digit of either case.
pub open spec fn digit_value(c: char) -> Option<u8> {
    let code = c as u32;
    if 48 <= code <= 57 {
        Some((code - 48) as u8)
    } else if 97 <= code <= 102 {
        Some((code - 87) as u8)
    } else if 65 <= code <= 70 {
        Some((code - 55) as u8)
    } else {
        None
    }
}

/// `s` is the text of a path: at most 64 hexadecimal digits.
pub open spec fn is_hex_path(s: Seq<char>) -> bool {
    &&& s.len() <= MAX_NIBBLES
    &&& forall|i: int| 0 <= i < s.len() ==> digit_value(#[trigger] s[i]) is Some
}

/// The path whose text is `s`.
pub open spec fn path_of_hex(s: Seq<char>) -> Seq<u8> {
    Seq::new(s.len(), |i: int| digit_value(s[i])->0)
}

/// `a` stands before `b` in a post-order walk: a path comes after everything below it, and
/// siblings come in ascending order.
pub open spec fn depth_first_before(a: Seq<u8>, b: Seq<u8>) -> bool {
    exists|k: int| #[trigger] splits_before(a, b, k)
}

/// `a` and `b` agree on their first `k` nibbles, and there `b` ends while `a` goes on, or `a`
/// takes the smaller nibble.
pub open spec fn splits_before(a: Seq<u8>, b: Seq<u8>, k: int) -> bool {
    &&& 0 <= k < a.len()
    &&& k <= b.len()
    &&& forall|i: int| 0 <= i < k ==> a[i] == b[i]
    &&& k == b.len() || a[k] < b[k]
}

/// How two paths stand to each other in a post-order walk.
#[derive(Clone, Copy, PartialEq, Eq, Structural, Debug)]
pub enum WalkOrder {
    /// The first path comes first.
    Before,
    /// The paths are the same.
    Same,
    /// The first path comes later.
    After,
}

/// A position in a trie.
#[derive(PartialEq, Eq, Debug, Hash)]
pub struct Nibbles {
    nibbles: Vec<u8>,
}

impl View for Nibbles {
    type V = Seq<u8>;

    closed spec fn view(&self) -> Seq<u8> {
        self.nibbles@
    }
}

impl Clone for Nibbles {
    fn clone(&self) -> (copy: Self)
        ensures
            copy@ == self@,
    {
        proof {
            use_type_invariant(self);
        }
        let nibbles: Vec<u8> = self.nibbles.clone();
        assert(nibbles@ =~= self.nibbles@);
        Nibbles { nibbles }
    }
}

impl Default for Nibbles {
    /// The empty path.
    fn default() -> (path: Self)
        ensures
            path@ == Seq::<u8>::empty(),
    {
        Nibbles { nibbles: Vec::new() }
    }
}

impl Nibbles {
    /// Every path is well-formed.
    #[verifier::type_invariant]
    pub open spec fn well_formed(self) -> bool {
        is_path(self@)
    }

    /// The empty path.
    pub fn new() -> (path: Self)
        ensures
            path@ == Seq::<u8>::empty(),
    {
        Nibbles { nibbles: Vec::new() }
    }

    /// The path made of `nibbles`.
    pub fn from_nibbles(nibbles: &[u8]) -> (path: Self)
        requires
            is_path(nibbles@),
        ensures
            path@ == nibbles@,
    {
        let copy: Vec<u8> = vstd::slice::slice_to_vec(nibbles);
        Nibbles { nibbles: copy }
    }

    /// The path made of the low halves of `nibbles`.
    pub fn from_nibbles_unchecked(nibbles: &[u8]) -> (path: Self)
        requires
            nibbles@.len() <= MAX_NIBBLES,
        ensures
            path@ == low_nibbles(nibbles@),
    {
        let mut out: Vec<u8> = Vec::new();
        let mut i: usize = 0;
        while i < nibbles.len()
            invariant
                i <= nibbles@.len(),
                out@ == low_nibbles(nibbles@).take(i as int),
            decreases nibbles.len() - i,
        {
            out.push(nibbles[i] % 16);
            assert(low_nibbles(nibbles@).take(i + 1) =~= low_nibbles(nibbles@).take(i as int).push(
                low_nibbles(nibbles@)[i as int],
            ));
            i = i + 1;
        }
        assert(low_nibbles(nibbles@).take(i as int) =~= low_nibbles(nibbles@));
        Nibbles { nibbles: out }
    }

    /// The 64 nibbles of a key.
    pub fn unpack(key: &B256) -> (path: Self)
        ensures
            path@ == unpacked(key@),
    {
        Nibbles { nibbles: unpack_bytes(key.as_slice()) }
    }

    /// The number of nibbles.
    pub fn len(&self) -> (n: usize)
        ensures
            n == self@.len(),
            n <= MAX_NIBBLES,
    {
        proof {
            use_type_invariant(self);
        }
        self.nibbles.len()
    }

    /// Whether this is the empty path.
    pub fn is_empty(&self) -> (r: bool)
        ensures
            r == (self@.len() == 0),
    {
        self.nibbles.len() == 0
    }

    /// The nibble at `i`, if the path is that long.
    pub fn get(&self, i: usize) -> (r: Option<u8>)
        ensures
            r == (if i < self@.len() {
                Some(self@[i as int])
            } else {
                None::<u8>
            }),
            r matches Some(n) ==> n < 16,
    {
        proof {
            use_type_invariant(self);
        }
        if i < self.nibbles.len() {
            Some(self.nibbles[i])
        } else {
            None
        }
    }

    /// The nibbles, one per byte.
    pub fn as_slice(&self) -> (s: &[u8])
        ensures
            s@ == self@,
            is_path(s@),
    {
        proof {
            use_type_invariant(self);
        }
        self.nibbles.as_slice()
    }

    /// Whether the path begins with `prefix`.
    pub fn starts_with(&self, prefix: &Nibbles) -> (r: bool)
        ensures
            r == starts_with(self@, prefix@),
    {
        if prefix.nibbles.len() > self.nibbles.len() {
            return false;
        }
        let mut i: usize = 0;
        while i < prefix.nibbles.len()
            invariant
                i <= prefix@.len() <= self@.len(),
                forall|j: int| 0 <= j < i ==> self@[j] == prefix@[j],
            decreases prefix.nibbles.len() - i,
        {
            if self.nibbles[i] != prefix.nibbles[i] {
                return false;
            }
            i = i + 1;
        }
        true
    }

    /// Whether the two paths are the same.
    pub fn same(&self, other: &Nibbles) -> (r: bool)
        ensures
            r == (self@ == other@),
    {
        let r: bool = self.nibbles.len() == other.nibbles.len() && self.starts_with(other);
        proof {
            if r {
                assert(self@ =~= other@);
            }
        }
        r
    }

    /// Appends one nibble.
    pub fn push(&mut self, nibble: u8)
        requires
            old(self)@.len() < MAX_NIBBLES,
            nibble < 16,
        ensures
            final(self)@ == old(self)@.push(nibble),
    {
        proof {
            use_type_invariant(&*self);
        }
        let mut nibbles: Vec<u8> = self.nibbles.clone();
        assert(nibbles@ =~= self.nibbles@);
        nibbles.push(nibble);
        *self = Nibbles { nibbles };
    }

    /// Appends the nibbles of another path.
    pub fn extend(&mut self, other: &Nibbles)
        requires
            old(self)@.len() + other@.len() <= MAX_NIBBLES,
        ensures
            final(self)@ == old(self)@ + other@,
    {
        proof {
            use_type_invariant(&*self);
            use_type_invariant(other);
        }
        let mut nibbles: Vec<u8> = self.nibbles.clone();
        assert(nibbles@ =~= self.nibbles@);
        crate::be_bytes::push_bytes(&mut nibbles, other.nibbles.as_slice());
        *self = Nibbles { nibbles };
    }

    /// How `self` and `other` stand to each other in a post-order walk.
    pub fn depth_first_order(&self, other: &Nibbles) -> (r: WalkOrder)
        ensures
            r is Before <==> depth_first_before(self@, other@),
            r is Same <==> self@ == other@,
            r is After <==> depth_first_before(other@, self@),
    {
        let mut i: usize = 0;
        while i < self.nibbles.len() && i < other.nibbles.len()
            invariant
                i <= self@.len(),
                i <= other@.len(),
                forall|j: int| 0 <= j < i ==> self@[j] == other@[j],
            decreases self.nibbles.len() - i,
        {
            if self.nibbles[i] != other.nibbles[i] {
                proof {
                    lemma_split_decides(self@, other@, i as int);
                    lemma_split_decides(other@, self@, i as int);
                }
                if self.nibbles[i] < other.nibbles[i] {
                    return WalkOrder::Before;
                }
                return WalkOrder::After;
            }
            i = i + 1;
        }
        if i < self.nibbles.len() {
            proof {
                lemma_split_decides(self@, other@, i as int);
            }
            WalkOrder::Before
        } else if i < other.nibbles.len() {
            proof {
                lemma_split_decides(other@, self@, i as int);
            }
            WalkOrder::After
        } else {
            assert(self@ =~= other@);
            proof {
                lemma_depth_first_irreflexive(self@);
            }
            WalkOrder::Same
        }
    }
}

/// Each byte reduced to its low half.
pub open spec fn low_nibbles(s: Seq<u8>) -> Seq<u8> {
    Seq::new(s.len(), |i: int| (s[i] % 16) as u8)
}

/// Where two paths first part, and one of them stands first, nothing else places them.
proof fn lemma_split_decides(a: Seq<u8>, b: Seq<u8>, k: int)
    requires
        0 <= k < a.len(),
        k <= b.len(),
        forall|i: int| 0 <= i < k ==> a[i] == b[i],
        k == b.len() || a[k] != b[k],
    ensures
        depth_first_before(a, b) <==> splits_before(a, b, k),
        depth_first_before(b, a) <==> !splits_before(a, b, k),
        a != b,
{
    if splits_before(a, b, k) {
        if depth_first_before(b, a) {
            let j = choose|j: int| splits_before(b, a, j);
            assert(j < k ==> a[j] == b[j]);
            assert(j > k ==> b[k] == a[k]);
            assert(false);
        }
    } else {
        assert(splits_before(b, a, k));
        if depth_first_before(a, b) {
            let j = choose|j: int| splits_before(a, b, j);
            assert(j < k ==> a[j] == b[j]);
            assert(j > k ==> b[k] == a[k]);
            assert(false);
        }
    }
}

/// No path stands before itself.
pub proof fn lemma_depth_first_irreflexive(a: Seq<u8>)
    ensures
        !depth_first_before(a, a),
{
}

/// Two different paths stand one before the other, and only one way round.
pub proof fn lemma_depth_first_total(a: Seq<u8>, b: Seq<u8>)
    ensures
        a != b ==> (depth_first_before(a, b) <==> !depth_first_before(b, a)),
        a == b ==> !depth_first_before(a, b),
{
    if a != b {
        let k = lemma_first_difference(a, b);
        if k < a.len() {
            lemma_split_decides(a, b, k);
        } else {
            lemma_split_decides(b, a, k);
        }
    }
}

/// Two different paths agree up to some point and part there.
proof fn lemma_first_difference(a: Seq<u8>, b: Seq<u8>) -> (k: int)
    requires
        a != b,
    ensures
        0 <= k <= a.len(),
        k <= b.len(),
        k < a.len() || k < b.len(),
        forall|i: int| 0 <= i < k ==> a[i] == b[i],
        k < a.len() && k < b.len() ==> a[k] != b[k],
    decreases a.len(),
{
    if a.len() == 0 || b.len() == 0 {
        if a.len() == 0 && b.len() == 0 {
            assert(a =~= b);
        }
        0
    } else if a[0] != b[0] {
        0
    } else {
        if a.skip(1) == b.skip(1) {
            assert(a =~= seq![a[0]] + a.skip(1));
            assert(b =~= seq![b[0]] + b.skip(1));
        }
        let k = lemma_first_difference(a.skip(1), b.skip(1));
        assert forall|i: int| 0 <= i < k + 1 implies a[i] == b[i] by {
            if i > 0 {
                assert(a[i] == a.skip(1)[i - 1]);
                assert(b[i] == b.skip(1)[i - 1]);
            }
        }
        k + 1
    }
}

/// The post-order of paths is transitive.
pub proof fn lemma_depth_first_transitive(a: Seq<u8>, b: Seq<u8>, c: Seq<u8>)
    requires
        depth_first_before(a, b),
        depth_first_before(b, c),
    ensures
        depth_first_before(a, c),
{
    let j = choose|j: int| splits_before(a, b, j);
    let k = choose|k: int| splits_before(b, c, k);
    if j <= k {
        assert(splits_before(a, c, j) || (j == b.len() && j == k));
        if j == k {
            assert(j < b.len());
        }
        assert(splits_before(a, c, j));
    } else {
        assert(splits_before(a, c, k));
    }
}

/// The hexadecimal text of a path determines it, and is text that parses.
pub proof fn lemma_hex_round_trip(path: Seq<u8>)
    requires
        is_path(path),
    ensures
        is_hex_path(hex_of(path)),
        path_of_hex(hex_of(path)) == path,
{
    assert forall|i: int| 0 <= i < path.len() implies digit_value(#[trigger] hex_of(path)[i])
        == Some(path[i]) by {
        lemma_hex_digit(path[i]);
    }
    assert(path_of_hex(hex_of(path)) =~= path);
}

/// A digit's value is the nibble it was written for.
pub proof fn lemma_hex_digit(nibble: u8)
    requires
        nibble < 16,
    ensures
        digit_value(hex_char(nibble)) == Some(nibble),
{
}

/// Different sequences of nibbles have different texts.
pub proof fn lemma_hex_injective(a: Seq<u8>, b: Seq<u8>)
    requires
        all_nibbles(a),
        all_nibbles(b),
        hex_of(a) == hex_of(b),
    ensures
        a == b,
{
    assert(hex_of(a).len() == a.len());
    assert(hex_of(b).len() == b.len());
    assert forall|i: int| 0 <= i < a.len() implies a[i] == b[i] by {
        assert(hex_of(a)[i] == hex_char(a[i]));
        assert(hex_of(b)[i] == hex_char(b[i]));
        lemma_hex_digit(a[i]);
        lemma_hex_digit(b[i]);
    }
    assert(a =~= b);
}

/// The text of one nibble.
pub fn hex_digit(nibble: u8) -> (digit: &'static str)
    requires
        nibble < 16,
    ensures
        digit@ == seq![hex_char(nibble)],
{
    proof {
        reveal_strlit("0");
        reveal_strlit("1");
        reveal_strlit("2");
        reveal_strlit("3");
        reveal_strlit("4");
        reveal_strlit("5");
        reveal_strlit("6");
        reveal_strlit("7");
        reveal_strlit("8");
        reveal_strlit("9");
        reveal_strlit("a");
        reveal_strlit("b");
        reveal_strlit("c");
        reveal_strlit("d");
        reveal_strlit("e");
        reveal_strlit("f");
    }
    let digit: &'static str = match nibble {
        0 => "0",
        1 => "1",
        2 => "2",
        3 => "3",
        4 => "4",
        5 => "5",
        6 => "6",
        7 => "7",
        8 => "8",
        9 => "9",
        10 => "a",
        11 => "b",
        12 => "c",
        13 => "d",
        14 => "e",
        _ => "f",
    };
    assert(digit@ =~= seq![hex_char(nibble)]);
    digit
}

/// The text of nibbles that need not make a path.
pub fn hex_string(nibbles: &[u8]) -> (text: String)
    requires
        all_nibbles(nibbles@),
    ensures
        text@ == hex_of(nibbles@),
{
    let mut text: String = String::new();
    let mut i: usize = 0;
    while i < nibbles.len()
        invariant
            i <= nibbles@.len(),
            all_nibbles(nibbles@),
            text@ == hex_of(nibbles@).take(i as int),
        decreases nibbles.len() - i,
    {
        text.append(hex_digit(nibbles[i]));
        assert(text@ =~= hex_of(nibbles@).take(i + 1));
        i = i + 1;
    }
    assert(hex_of(nibbles@).take(i as int) =~= hex_of(nibbles@));
    text
}

/// The nibbles of some bytes, the high half of each byte first.
pub fn unpack_bytes(bytes: &[u8]) -> (nibbles: Vec<u8>)
    ensures
        nibbles@ == unpacked(bytes@),
        all_nibbles(nibbles@),
{
    let mut nibbles: Vec<u8> = Vec::new();
    let mut i: usize = 0;
    while i < bytes.len()
        invariant
            i <= bytes@.len(),
            nibbles@ == unpacked(bytes@).take(2 * i),
            all_nibbles(nibbles@),
        decreases bytes.len() - i,
    {
        nibbles.push(bytes[i] / 16);
        nibbles.push(bytes[i] % 16);
        assert(nibbles@ =~= unpacked(bytes@).take(2 * (i + 1)));
        i = i + 1;
    }
    assert(unpacked(bytes@).take(2 * i) =~= unpacked(bytes@));
    nibbles
}

/// The hexadecimal text of a path, one digit per nibble.
pub fn nibbles_hex(path: &Nibbles) -> (text: String)
    ensures
        text@ == hex_of(path@),
        is_hex_path(text@),
        path_of_hex(text@) == path@,
{
    proof {
        use_type_invariant(path);
        lemma_hex_round_trip(path@);
    }
    hex_string(path.as_slice())
}

/// The path that a hexadecimal text stands for.
pub fn parse_nibbles_hex(hex: &str) -> (path: Nibbles)
    requires
        is_hex_path(hex@),
    ensures
        path@ == path_of_hex(hex@),
{
    let n: usize = hex.unicode_len();
    let mut out: Vec<u8> = Vec::new();
    let mut i: usize = 0;
    while i < n
        invariant
            i <= n == hex@.len(),
            is_hex_path(hex@),
            out@ == path_of_hex(hex@).take(i as int),
            forall|j: int| 0 <= j < out@.len() ==> out@[j] < 16,
        decreases n - i,
    {
        let c: u32 = hex.get_char(i) as u32;
        assert(digit_value(hex@[i as int]) is Some);
        let value: u32 = if c <= 57 {
            c - 48
        } else if c >= 97 {
            c - 87
        } else {
            c - 55
        };
        out.push(value as u8);
        assert(out@ =~= path_of_hex(hex@).take(i + 1));
        i = i + 1;
    }
    assert(path_of_hex(hex@).take(i as int) =~= path_of_hex(hex@));
    Nibbles { nibbles: out }
}

/// `leaf_prefix` padded with zeros to a full key, where a search for the keys under it starts.
pub fn pack_seek_key(leaf_prefix: &Nibbles) -> (key: B256)
    ensures
        key@ == seek_key(leaf_prefix@),
{
    proof {
        use_type_invariant(leaf_prefix);
    }
    let mut key: [u8; 32] = [0u8; 32];
    let mut i: usize = 0;
    while i < 32
        invariant
            i <= 32,
            is_path(leaf_prefix@),
            forall|j: int| 0 <= j < i ==> key@[j] == seek_key(leaf_prefix@)[j],
        decreases 32 - i,
    {
        let hi: u8 = if 2 * i < leaf_prefix.nibbles.len() {
            leaf_prefix.nibbles[2 * i]
        } else {
            0
        };
        let lo: u8 = if 2 * i + 1 < leaf_prefix.nibbles.len() {
            leaf_prefix.nibbles[2 * i + 1]
        } else {
            0
        };
        assert(hi == padded_nibble(leaf_prefix@, 2 * i as int));
        assert(lo == padded_nibble(leaf_prefix@, 2 * i + 1));
        key[i] = hi * 16 + lo;
        i = i + 1;
    }
    assert(key@ =~= seek_key(leaf_prefix@));
    key
}

/// A sequence begins with a prefix exactly where it is the prefix and something more.
pub proof fn lemma_begins_with(s: Seq<u8>, prefix: Seq<u8>)
    ensures
        starts_with(s, prefix) <==> exists|rest: Seq<u8>| s == #[trigger] (prefix + rest),
{
    if starts_with(s, prefix) {
        let rest = s.skip(prefix.len() as int);
        assert(s =~= prefix + rest);
    }
}

/// The nibbles of a key are the two halves of each of its bytes, in order, the high one first.
pub proof fn lemma_halves(key: Seq<u8>)
    ensures
        unpacked(key).len() == 2 * key.len(),
        forall|i: int|
            0 <= i < key.len() ==> unpacked(key)[2 * i] < 16 && unpacked(key)[2 * i + 1] < 16
                && #[trigger] key[i] == 16 * unpacked(key)[2 * i] + unpacked(key)[2 * i + 1],
{
    assert forall|i: int| 0 <= i < key.len() implies unpacked(key)[2 * i] < 16
        && unpacked(key)[2 * i + 1] < 16 && #[trigger] key[i] == 16 * unpacked(key)[2 * i]
        + unpacked(key)[2 * i + 1] by {
        assert((2 * i) / 2 == i && (2 * i + 1) / 2 == i);
    }
}

/// The key at which a search for what is under a path starts has the nibbles of the path, and
/// zeros after them.
pub proof fn lemma_seek_key_nibbles(path: Seq<u8>)
    requires
        is_path(path),
    ensures
        seek_key(path).len() == 32,
        starts_with(unpacked(seek_key(path)), path),
        forall|j: int| path.len() <= j < 64 ==> #[trigger] unpacked(seek_key(path))[j] == 0,
{
    let s = seek_key(path);
    assert forall|j: int| 0 <= j < 64 implies #[trigger] unpacked(s)[j] == (if j < path.len() {
        path[j]
    } else {
        0
    }) by {
        let i = j / 2;
        let hi = padded_nibble(path, 2 * i);
        let lo = padded_nibble(path, 2 * i + 1);
        assert(hi < 16 && lo < 16);
        assert(s[i] == hi * 16 + lo);
        assert(j == 2 * i || j == 2 * i + 1);
    }
}

/// The text of nibbles has one lower-case hexadecimal digit for each, in order.
pub proof fn lemma_hex_text(path: Seq<u8>)
    requires
        all_nibbles(path),
    ensures
        hex_of(path).len() == path.len(),
        forall|i: int|
            0 <= i < path.len() ==> #[trigger] hex_of(path)[i] == "0123456789abcdef"@[path[i] as int],
{
    reveal_strlit("0123456789abcdef");
    assert forall|i: int| 0 <= i < path.len() implies #[trigger] hex_of(path)[i]
        == "0123456789abcdef"@[path[i] as int] by {
        let n = path[i];
        assert(n < 16);
        assert(n == 0 || n == 1 || n == 2 || n == 3 || n == 4 || n == 5 || n == 6 || n == 7 || n == 8
            || n == 9 || n == 10 || n == 11 || n == 12 || n == 13 || n == 14 || n == 15);
    }
}

/// A digit of either case has its value, and nothing else has one.
pub proof fn lemma_digits(c: char, n: u8)
    ensures
        digit_value(c) == Some(n) <==> n < 16 && (c == "0123456789abcdef"@[n as int] || c
            == "0123456789ABCDEF"@[n as int]),
{
    reveal_strlit("0123456789abcdef");
    reveal_strlit("0123456789ABCDEF");
    if n < 16 {
        assert(n == 0 || n == 1 || n == 2 || n == 3 || n == 4 || n == 5 || n == 6 || n == 7 || n == 8
            || n == 9 || n == 10 || n == 11 || n == 12 || n == 13 || n == 14 || n == 15);
    }
}

/// A path of text is read digit by digit.
pub proof fn lemma_path_of_text(text: Seq<char>)
    requires
        is_hex_path(text),
    ensures
        text.len() <= 64,
        path_of_hex(text).len() == text.len(),
        forall|i: int|
            0 <= i < text.len() ==> digit_value(text[i]) == Some(#[trigger] path_of_hex(text)[i]),
        all_nibbles(path_of_hex(text)),
{
    assert forall|i: int| 0 <= i < text.len() implies digit_value(text[i]) == Some(
        #[trigger] path_of_hex(text)[i],
    ) by {
        assert(digit_value(text[i]) is Some);
    }
}

/// In a post-order walk whatever stands below a path comes before it, and what leaves a common
/// path by the smaller nibble comes first.
pub proof fn lemma_walk_order(common: Seq<u8>, a: Seq<u8>, b: Seq<u8>)
    ensures
        a.len() > 0 ==> depth_first_before(common + a, common),
        a.len() > 0 && b.len() > 0 && a[0] < b[0] ==> depth_first_before(common + a, common + b),
{
    let k = common.len() as int;
    if a.len() > 0 {
        assert(splits_before(common + a, common, k));
        if b.len() > 0 && a[0] < b[0] {
            assert(splits_before(common + a, common + b, k));
        }
    }
}

} // verus!
