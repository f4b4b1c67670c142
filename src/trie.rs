//! A trie over lower-case ASCII words.
use vstd::prelude::*;

verus! {

broadcast use vstd::array::group_array_axioms;

pub const ASCII_A: u32 = 97;

pub const ASCII_Z: u32 = 122;

/// Whether `c` is one of `a` to `z`.
pub open spec fn is_lower(c: char) -> bool {
    ASCII_A <= (c as u32) <= ASCII_Z
}

/// Whether every character of `s` is one of `a` to `z`.
pub open spec fn is_lower_word(s: Seq<char>) -> bool {
    forall|i: int| 0 <= i < s.len() ==> is_lower(#[trigger] s[i])
}

/// The position of a lower-case letter in the alphabet.
pub open spec fn digit(c: char) -> int {
    (c as u32) - ASCII_A
}

/// The position of `c` in the alphabet, if it is one of `a` to `z`.
pub fn get_digit(c: char) -> (r: Option<usize>)
    ensures
        r == (if is_lower(c) { Some(digit(c) as usize) } else { None::<usize> }),
{
    let code = c as u32;
    if ASCII_A <= code && code <= ASCII_Z {
        Some((code - ASCII_A) as usize)
    } else {
        None
    }
}

/// Whether every character of `s` is one of `a` to `z`.
pub fn is_lower_alphabet(s: &str) -> (r: bool)
    ensures
        r == is_lower_word(s@),
{
    let len = s.unicode_len();
    let mut i: usize = 0;
    while i < len
        invariant
            len == s@.len(),
            i <= len,
            forall|j: int| 0 <= j < i ==> is_lower(#[trigger] s@[j]),
        decreases len - i,
    {
        let c = s.get_char(i);
        if get_digit(c).is_none() {
            return false;
        }
        i = i + 1;
    }
    true
}

/// A node of the trie: one optional child per letter, and whether a word
/// ends here.
pub struct Node {
    children: [Option<Box<Node>>; 26],
    is_end_of_word: bool,
}

impl Node {
    /// Whether the word `w` is stored below this node.
    pub closed spec fn has_word(&self, w: Seq<char>) -> bool
        decreases w.len(),
    {
        if w.len() == 0 {
            self.is_end_of_word
        } else if !is_lower(w[0]) {
            false
        } else {
            match self.children@[digit(w[0])] {
                Some(child) => child.has_word(w.drop_first()),
                None => false,
            }
        }
    }

    /// The node reached from this one along `w`, if the path exists.
    pub closed spec fn node_at(&self, w: Seq<char>) -> Option<Node>
        decreases w.len(),
    {
        if w.len() == 0 {
            Some(*self)
        } else if !is_lower(w[0]) {
            None
        } else {
            match self.children@[digit(w[0])] {
                Some(child) => child.node_at(w.drop_first()),
                None => None,
            }
        }
    }

    /// No child is present.
    pub closed spec fn is_leaf_spec(&self) -> bool {
        forall|k: int| 0 <= k < 26 ==> (#[trigger] self.children@[k]) is None
    }

    /// The child at letter position `k`.
    pub closed spec fn child_spec(&self, k: int) -> Option<Box<Node>> {
        self.children@[k]
    }

    /// Whether a word ends at this node.
    pub closed spec fn ends_word(&self) -> bool {
        self.is_end_of_word
    }

    /// A node with no children that ends no word.
    pub fn new() -> (r: Self)
        ensures
            r.is_leaf_spec(),
            !r.ends_word(),
            forall|w: Seq<char>| !r.has_word(w),
    {
        let r = Node {
            children: [
                None,
                None,
                None,
                None,
                None,
                None,
                None,
                None,
                None,
                None,
                None,
                None,
                None,
                None,
                None,
                None,
                None,
                None,
                None,
                None,
                None,
                None,
                None,
                None,
                None,
                None
            ],
            is_end_of_word: false,
        };
        assert forall|w: Seq<char>| !r.has_word(w) by {
            if w.len() > 0 && is_lower(w[0]) {
                assert(r.children@[digit(w[0])] is None);
            }
        }
        r
    }

    /// Puts a fresh node at child position `i`.
    pub fn append_child(&mut self, i: usize)
        requires
            i <= 25,
        ensures
            final(self).ends_word() == old(self).ends_word(),
            forall|k: int| 0 <= k < 26 && k != i ==> final(self).child_spec(k) == old(self).child_spec(k),
            final(self).child_spec(i as int) matches Some(c) && c.is_leaf_spec() && !c.ends_word(),
    {
        self.children[i] = Some(Box::new(Node::new()));
    }

    /// Whether no child is present.
    pub fn is_leaf(&self) -> (r: bool)
        ensures
            r == self.is_leaf_spec(),
    {
        let mut k: usize = 0;
        while k < 26
            invariant
                k <= 26,
                forall|j: int| 0 <= j < k ==> (#[trigger] self.children@[j]) is None,
            decreases 26 - k,
        {
            if self.children[k].is_some() {
                return false;
            }
            k = k + 1;
        }
        true
    }

    /// Stores the word `s`.
    pub fn insert(&mut self, s: &str)
        requires
            is_lower_word(s@),
        ensures
            forall|w: Seq<char>| #[trigger] final(self).has_word(w) == (old(self).has_word(w) || w == s@),
    {
        let len = s.unicode_len();
        assert(s@.skip(0) =~= s@);
        self.insert_from(s, 0, len);
    }

    fn insert_from(&mut self, s: &str, pos: usize, len: usize)
        requires
            len == s@.len(),
            pos <= len,
            is_lower_word(s@),
        ensures
            forall|w: Seq<char>| #[trigger] final(self).has_word(w) == (old(self).has_word(w) || w == s@.skip(pos as int)),
        decreases len - pos,
    {
        let ghost pre = *self;
        if pos == len {
            self.is_end_of_word = true;
            proof {
                assert forall|w: Seq<char>| #[trigger] self.has_word(w) == (pre.has_word(w) || w == s@.skip(pos as int)) by {
                    if w.len() == 0 {
                        assert(w =~= s@.skip(pos as int));
                    }
                }
            }
            return;
        }
        let c = s.get_char(pos);
        assert(is_lower(s@[pos as int]));
        let n = (c as u32 - ASCII_A) as usize;
        if self.children[n].is_none() {
            self.append_child(n);
        }
        let ghost mid = *self;
        proof {
            if let Some(fresh) = mid.children@[n as int] {
                if pre.children@[n as int] is None {
                    assert forall|u: Seq<char>| !fresh.has_word(u) by {
                        lemma_empty_has_no_word(*fresh, u);
                    }
                }
            }
        }
        match &mut self.children[n] {
            Some(child) => {
                child.insert_from(s, pos + 1, len);
            },
            None => {},
        }
        proof {
            assert(self.is_end_of_word == pre.is_end_of_word);
            assert forall|k: int| 0 <= k < 26 && k != n implies self.children@[k] == pre.children@[k] by {
                assert(mid.child_spec(k) == pre.child_spec(k));
            }
            assert(self.children@[n as int] is Some);
            let rest = s@.skip(pos + 1 as int);
            let skip = s@.skip(pos as int);
            assert(skip.drop_first() =~= rest);
            assert(skip =~= seq![c] + rest);
            let mc = mid.children@[n as int]->Some_0;
            let fc = self.children@[n as int]->Some_0;
            assert(forall|u: Seq<char>| #[trigger] fc.has_word(u) == (mc.has_word(u) || u == rest));
            assert forall|w: Seq<char>| #[trigger] self.has_word(w) == (pre.has_word(w) || w == skip) by {
                if w.len() == 0 {
                    assert(w != skip);
                } else if !is_lower(w[0]) {
                    assert(w[0] != skip[0]);
                } else if digit(w[0]) != n {
                    assert(w[0] != skip[0]);
                    assert(self.children@[digit(w[0])] == pre.children@[digit(w[0])]);
                } else {
                    lemma_same_code_same_char(w[0], c);
                    let w1 = w.drop_first();
                    assert(w =~= seq![c] + w1);
                    assert(self.has_word(w) == fc.has_word(w1));
                    assert(pre.has_word(w) == mc.has_word(w1));
                    assert((w == skip) == (w1 == rest));
                }
            }
        }
    }

    /// Whether the word `s` is stored.
    pub fn search(&self, s: &str) -> (r: bool)
        requires
            is_lower_word(s@),
        ensures
            r == self.has_word(s@),
    {
        let len = s.unicode_len();
        assert(s@.skip(0) =~= s@);
        self.search_from(s, 0, len)
    }

    fn search_from(&self, s: &str, pos: usize, len: usize) -> (r: bool)
        requires
            len == s@.len(),
            pos <= len,
            is_lower_word(s@),
        ensures
            r == self.has_word(s@.skip(pos as int)),
        decreases len - pos,
    {
        if pos == len {
            return self.is_end_of_word;
        }
        let c = s.get_char(pos);
        assert(is_lower(s@[pos as int]));
        let n = (c as u32 - ASCII_A) as usize;
        assert(s@.skip(pos as int).drop_first() =~= s@.skip(pos + 1 as int));
        match &self.children[n] {
            Some(child) => child.search_from(s, pos + 1, len),
            None => false,
        }
    }

    /// The node reached along `s`, if the path exists.
    pub fn get_node(&self, s: &str) -> (r: Option<&Node>)
        requires
            is_lower_word(s@),
        ensures
            r is Some <==> self.node_at(s@) is Some,
            r matches Some(node) ==> self.node_at(s@) == Some(*node),
    {
        let len = s.unicode_len();
        assert(s@.skip(0) =~= s@);
        self.get_node_from(s, 0, len)
    }

    fn get_node_from(&self, s: &str, pos: usize, len: usize) -> (r: Option<&Node>)
        requires
            len == s@.len(),
            pos <= len,
            is_lower_word(s@),
        ensures
            r is Some <==> self.node_at(s@.skip(pos as int)) is Some,
            r matches Some(node) ==> self.node_at(s@.skip(pos as int)) == Some(*node),
        decreases len - pos,
    {
        if pos == len {
            return Some(self);
        }
        let c = s.get_char(pos);
        assert(is_lower(s@[pos as int]));
        let n = (c as u32 - ASCII_A) as usize;
        assert(s@.skip(pos as int).drop_first() =~= s@.skip(pos + 1 as int));
        match &self.children[n] {
            Some(child) => child.get_node_from(s, pos + 1, len),
            None => None,
        }
    }

    /// Removes the word `s`, pruning the nodes that no longer lead to a word.
    ///
    /// Returns whether the path of `s` existed and this node is now a leaf
    /// that ends no word, so that its parent may drop it.
    pub fn delete(&mut self, s: &str) -> (r: bool)
        requires
            is_lower_word(s@),
        ensures
            forall|w: Seq<char>| #[trigger] final(self).has_word(w) == (old(self).has_word(w) && w != s@),
            r == (old(self).node_at(s@) is Some && final(self).is_leaf_spec() && !final(self).ends_word()),
    {
        let len = s.unicode_len();
        assert(s@.skip(0) =~= s@);
        self.delete_from(s, 0, len)
    }

    fn delete_from(&mut self, s: &str, pos: usize, len: usize) -> (r: bool)
        requires
            len == s@.len(),
            pos <= len,
            is_lower_word(s@),
        ensures
            forall|w: Seq<char>| #[trigger] final(self).has_word(w) == (old(self).has_word(w) && w != s@.skip(pos as int)),
            r == (old(self).node_at(s@.skip(pos as int)) is Some && final(self).is_leaf_spec() && !final(self).ends_word()),
        decreases len - pos,
    {
        let ghost pre = *self;
        if pos == len {
            self.is_end_of_word = false;
            proof {
                assert forall|w: Seq<char>| #[trigger] self.has_word(w) == (pre.has_word(w) && w != s@.skip(pos as int)) by {
                    if w.len() == 0 {
                        assert(w =~= s@.skip(pos as int));
                    }
                }
            }
            return self.is_leaf();
        }
        let c = s.get_char(pos);
        assert(is_lower(s@[pos as int]));
        let n = (c as u32 - ASCII_A) as usize;
        let rest = Ghost(s@.skip(pos + 1 as int));
        assert(s@.skip(pos as int).drop_first() =~= rest@);
        assert(s@.skip(pos as int)[0] == c);
        let mut pruned = false;
        match &mut self.children[n] {
            Some(child) => {
                pruned = child.delete_from(s, pos + 1, len);
            },
            None => {},
        }
        let ghost mid = *self;
        if pruned {
            proof {
                if let Some(gone) = mid.children@[n as int] {
                    assert forall|u: Seq<char>| !gone.has_word(u) by {
                        lemma_empty_has_no_word(*gone, u);
                    }
                }
            }
            self.children[n] = None;
        }
        proof {
            let skip = s@.skip(pos as int);
            assert(skip =~= seq![c] + rest@);
            assert forall|k: int| 0 <= k < 26 && k != n implies self.children@[k] == pre.children@[k] by {}
            assert forall|w: Seq<char>| #[trigger] self.has_word(w) == (pre.has_word(w) && w != skip) by {
                if w.len() == 0 {
                    assert(w != skip);
                } else if !is_lower(w[0]) {
                    assert(w[0] != skip[0]);
                } else if digit(w[0]) != n {
                    assert(w[0] != skip[0]);
                    assert(self.children@[digit(w[0])] == pre.children@[digit(w[0])]);
                } else {
                    lemma_same_code_same_char(w[0], c);
                    let w1 = w.drop_first();
                    assert(w =~= seq![c] + w1);
                    assert((w == skip) == (w1 == rest@));
                    if let Some(pc) = pre.children@[n as int] {
                        let mc = mid.children@[n as int]->Some_0;
                        assert(mc.has_word(w1) == (pc.has_word(w1) && w1 != rest@));
                    }
                }
            }
        }
        if pruned {
            return self.is_leaf() && !self.is_end_of_word;
        }
        proof {
            if pre.node_at(s@.skip(pos as int)) is Some {
                assert(self.children@[n as int] is Some);
            }
        }
        false
    }
}

proof fn lemma_same_code_same_char(a: char, b: char)
    requires
        (a as u32) == (b as u32),
    ensures
        a == b,
{
}

/// A leaf that ends no word stores no word.
proof fn lemma_empty_has_no_word(node: Node, w: Seq<char>)
    requires
        node.is_leaf_spec(),
        !node.ends_word(),
    ensures
        !node.has_word(w),
{
    if w.len() > 0 && is_lower(w[0]) {
        assert(node.children@[digit(w[0])] is None);
    }
}

/// A trie of lower-case words.
pub struct Trie {
    pub root: Node,
}

impl Trie {
    /// An empty trie.
    pub fn new() -> (r: Self)
        ensures
            r.root.is_leaf_spec(),
            forall|w: Seq<char>| !r.root.has_word(w),
    {
        Self { root: Node::new() }
    }

    /// Stores the word `s`.
    pub fn insert(&mut self, s: &str)
        requires
            is_lower_word(s@),
        ensures
            forall|w: Seq<char>| #[trigger] final(self).root.has_word(w) == (old(self).root.has_word(w) || w == s@),
    {
        self.root.insert(s);
    }

    /// Whether the word `s` is stored.
    pub fn search(&self, s: &str) -> (r: bool)
        requires
            is_lower_word(s@),
        ensures
            r == self.root.has_word(s@),
    {
        self.root.search(s)
    }

    /// Removes the word `s`.
    pub fn delete(&mut self, s: &str)
        requires
            is_lower_word(s@),
        ensures
            forall|w: Seq<char>| #[trigger] final(self).root.has_word(w) == (old(self).root.has_word(w) && w != s@),
    {
        self.root.delete(s);
    }

    /// The node reached along `s`, if the path exists.
    pub fn get_node(&self, s: &str) -> (r: Option<&Node>)
        requires
            is_lower_word(s@),
        ensures
            r is Some <==> self.root.node_at(s@) is Some,
            r matches Some(node) ==> self.root.node_at(s@) == Some(*node),
    {
        self.root.get_node(s)
    }
}

} // verus!
