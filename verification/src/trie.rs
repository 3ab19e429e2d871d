use vstd::prelude::*;
use crate::bytes::{le_value, lemma_le_value_u32, copy_bytes, le_u32, lemma_le_u32_zero, push_le_u32, set_le_u32};
use vstd::string::StringSliceAdditionalSpecFns;

verus! {

/// A trie node. Children are kept sorted by their edge byte.
pub struct Node {
    pub children: Vec<(u8, Node)>,
    pub is_terminal: bool,
    pub category_bitmap: u32,
}

/// Concatenation of a sequence of byte strings, left to right.
pub open spec fn concat_all(ss: Seq<Seq<u8>>) -> Seq<u8>
    decreases ss.len(),
{
    if ss.len() == 0 {
        Seq::empty()
    } else {
        concat_all(ss.drop_last()) + ss.last()
    }
}

/// Index of the child reached by edge byte `b`, if any.
pub open spec fn child_index(cs: Seq<(u8, Node)>, b: u8) -> Option<int> {
    if exists|i: int| 0 <= i < cs.len() && cs[i].0 == b {
        Some(choose|i: int| 0 <= i < cs.len() && cs[i].0 == b)
    } else {
        None
    }
}

impl Node {
    /// The bitmap stored under `key` in the subtree rooted here.
    pub open spec fn lookup(self, key: Seq<u8>) -> Option<u32>
        decreases key.len(),
    {
        if key.len() == 0 {
            if self.is_terminal { Some(self.category_bitmap) } else { None }
        } else {
            match child_index(self.children@, key[0]) {
                Some(i) => self.children@[i].1.lookup(key.drop_first()),
                None => None,
            }
        }
    }

    /// The map from keys to bitmaps that the subtree rooted here stores.
    pub open spec fn view_map(self) -> Map<Seq<u8>, u32> {
        Map::new(|k: Seq<u8>| self.lookup(k) is Some, |k: Seq<u8>| self.lookup(k).unwrap())
    }

    /// Serialized bytes of this subtree.
    pub open spec fn ser(self) -> Seq<u8>
        decreases self, 1int,
    {
        let cs = self.children@;
        let sub = Node::sers(cs);
        node_header(self) + entries_bytes(cs, sub) + concat_all(sub)
    }

    /// Serialized bytes of each child, in order.
    pub open spec fn sers(cs: Seq<(u8, Node)>) -> Seq<Seq<u8>>
        decreases cs, 0int,
    {
        if cs.len() == 0 {
            Seq::empty()
        } else {
            Node::sers(cs.drop_last()).push(cs.last().1.ser())
        }
    }
}

/// The bitmap after OR-ing `bitmap` into the entry `old` (absent counts as 0).
pub open spec fn merged(old: Option<u32>, bitmap: u32) -> u32 {
    match old {
        Some(v) => v | bitmap,
        None => bitmap,
    }
}

/// Children are sorted by strictly increasing edge byte.
pub open spec fn sorted_children(cs: Seq<(u8, Node)>) -> bool {
    forall|i: int, j: int| 0 <= i < j < cs.len() ==> cs[i].0 < cs[j].0
}

pub proof fn lemma_child_index_at(cs: Seq<(u8, Node)>, i: int)
    requires
        sorted_children(cs),
        0 <= i < cs.len(),
    ensures
        child_index(cs, cs[i].0) == Some(i),
{
    let b = cs[i].0;
    assert(exists|j: int| 0 <= j < cs.len() && cs[j].0 == b);
    let j = choose|j: int| 0 <= j < cs.len() && cs[j].0 == b;
    if j < i {
        assert(cs[j].0 < cs[i].0);
    } else if i < j {
        assert(cs[i].0 < cs[j].0);
    }
}

pub proof fn lemma_seq_first_rest(a: Seq<u8>, b: Seq<u8>)
    requires
        a.len() > 0,
        b.len() > 0,
        a[0] == b[0],
        a.drop_first() == b.drop_first(),
    ensures
        a == b,
{
    assert(a.drop_first().len() == a.len() - 1);
    assert(b.drop_first().len() == b.len() - 1);
    assert(a.len() == b.len());
    assert forall|x: int| 0 <= x < a.len() implies a[x] == b[x] by {
        if x > 0 {
            assert(a[x] == a.drop_first()[x - 1]);
            assert(b[x] == b.drop_first()[x - 1]);
        }
    }
    assert(a =~= b);
}

#[verifier::spinoff_prover]
proof fn lemma_insert_child_lookup(
    old_n: Node,
    new_n: Node,
    j: int,
    found: bool,
    b: u8,
    rest: Seq<u8>,
    bitmap: u32,
    oc: Node,
)
    requires
        sorted_children(old_n.children@),
        sorted_children(new_n.children@),
        new_n.is_terminal == old_n.is_terminal,
        new_n.category_bitmap == old_n.category_bitmap,
        0 <= j <= old_n.children@.len(),
        rest.len() > 0,
        rest[0] == b,
        found ==> j < old_n.children@.len() && old_n.children@[j].0 == b && oc == old_n.children@[j].1,
        !found ==> forall|t: int| 0 <= t < old_n.children@.len() ==> old_n.children@[t].0 != b,
        !found ==> forall|k: Seq<u8>| oc.lookup(k) is None,
        found ==> new_n.children@.len() == old_n.children@.len(),
        !found ==> new_n.children@.len() == old_n.children@.len() + 1,
        forall|t: int| 0 <= t < j ==> new_n.children@[t] == old_n.children@[t],
        forall|t: int| j < t < new_n.children@.len() ==> new_n.children@[t] == old_n.children@[if found { t } else { t - 1 }],
        new_n.children@[j].0 == b,
        forall|k: Seq<u8>| #[trigger] new_n.children@[j].1.lookup(k) == if k == rest.drop_first() {
            Some(merged(oc.lookup(k), bitmap))
        } else {
            oc.lookup(k)
        },
    ensures
        forall|k: Seq<u8>| #[trigger] new_n.lookup(k) == if k == rest {
            Some(merged(old_n.lookup(k), bitmap))
        } else {
            old_n.lookup(k)
        },
{
    let cs = new_n.children@;
    let old_cs = old_n.children@;
    assert forall|k: Seq<u8>| #[trigger] new_n.lookup(k) == if k == rest {
        Some(merged(old_n.lookup(k), bitmap))
    } else {
        old_n.lookup(k)
    } by {
        if k.len() > 0 {
            let c = k[0];
            if c == b {
                lemma_child_index_at(cs, j);
                assert(new_n.lookup(k) == cs[j].1.lookup(k.drop_first()));
                if found {
                    lemma_child_index_at(old_cs, j);
                    assert(old_n.lookup(k) == oc.lookup(k.drop_first()));
                } else {
                    assert(child_index(old_cs, c) is None);
                    assert(old_n.lookup(k) is None);
                    assert(oc.lookup(k.drop_first()) is None);
                }
                if k.drop_first() == rest.drop_first() {
                    lemma_seq_first_rest(k, rest);
                }
                if k == rest {
                    assert(k.drop_first() == rest.drop_first());
                }
            } else {
                if k == rest {
                    assert(k[0] == rest[0]);
                }
                match child_index(old_cs, c) {
                    Some(t) => {
                        lemma_child_index_at(old_cs, t);
                        let t2 = if found || t < j { t } else { t + 1 };
                        assert(cs[t2] == old_cs[t]);
                        lemma_child_index_at(cs, t2);
                    },
                    None => {
                        if child_index(cs, c) is Some {
                            let t2 = child_index(cs, c)->0;
                            lemma_child_index_at(cs, t2);
                            if t2 != j {
                                let t = if found || t2 < j { t2 } else { t2 - 1 };
                                assert(old_cs[t].0 == c);
                            }
                        }
                    },
                }
            }
        } else {
            assert(k != rest);
        }
    }
}

impl Node {
    /// Well-formedness: sorted distinct edges, and every child subtree stores some key.
    pub open spec fn wf(self) -> bool
        decreases self,
    {
        &&& sorted_children(self.children@)
        &&& forall|i: int| 0 <= i < self.children@.len() ==> {
            &&& (#[trigger] self.children@[i]).1.wf()
            &&& exists|k: Seq<u8>| self.children@[i].1.lookup(k) is Some
        }
    }

    pub fn new() -> (n: Node)
        ensures
            n.wf(),
            forall|k: Seq<u8>| n.lookup(k) is None,
    {
        Node { children: Vec::new(), is_terminal: false, category_bitmap: 0 }
    }

    #[verifier::spinoff_prover]
    #[verifier::rlimit(40)]
    fn insert_rec(&mut self, key: &[u8], i: usize, bitmap: u32) -> (added: bool)
        requires
            old(self).wf(),
            i <= key@.len(),
        ensures
            final(self).wf(),
            forall|k: Seq<u8>| #[trigger] final(self).lookup(k) == if k == key@.skip(i as int) {
                Some(merged(old(self).lookup(k), bitmap))
            } else {
                old(self).lookup(k)
            },
            added == (old(self).lookup(key@.skip(i as int)) is None),
        decreases key@.len() - i,
    {
        if i == key.len() {
            let added = !self.is_terminal;
            if self.is_terminal {
                self.category_bitmap = self.category_bitmap | bitmap;
            } else {
                self.category_bitmap = bitmap;
            }
            self.is_terminal = true;
            assert(self.children@ == old(self).children@);
            assert(sorted_children(self.children@));
            assert(forall|t: int| 0 <= t < self.children@.len() ==> {
                &&& (#[trigger] self.children@[t]).1.wf()
                &&& exists|k: Seq<u8>| self.children@[t].1.lookup(k) is Some
            });
            assert(self.wf());
            assert(key@.skip(i as int) =~= Seq::<u8>::empty());
            assert forall|k: Seq<u8>| #[trigger] self.lookup(k) == if k == key@.skip(i as int) {
                Some(merged(old(self).lookup(k), bitmap))
            } else {
                old(self).lookup(k)
            } by {
                if k.len() == 0 {
                    assert(k =~= key@.skip(i as int));
                }
            }
            return added;
        }
        let b = key[i];
        let n = self.children.len();
        let mut j: usize = 0;
        while j < n && self.children[j].0 < b
            invariant
                n == self.children@.len(),
                j <= n,
                forall|t: int| 0 <= t < j ==> self.children@[t].0 < b,
            decreases n - j,
        {
            j = j + 1;
        }
        let ghost old_cs = self.children@;
        let ghost rest = key@.skip(i as int);
        let found = j < n && self.children[j].0 == b;
        let (eb, mut child) = if found {
            self.children.remove(j)
        } else {
            (b, Node::new())
        };
        let ghost old_child = child;
        let added = child.insert_rec(key, i + 1, bitmap);
        self.children.insert(j, (eb, child));
        proof {
            let cs = self.children@;
            assert(rest.len() > 0 && rest[0] == b);
            assert(rest.drop_first() =~= key@.skip(i + 1));
            assert(sorted_children(cs)) by {
                assert forall|x: int, y: int| 0 <= x < y < cs.len() implies cs[x].0 < cs[y].0 by {
                    if found {
                        assert(cs =~= old_cs.update(j as int, cs[j as int]));
                    } else {
                        if x < j && y > j {
                            assert(cs[y].0 == old_cs[y - 1].0);
                        }
                    }
                }
            }
            assert forall|t: int| 0 <= t < cs.len() implies {
                &&& (#[trigger] cs[t]).1.wf()
                &&& exists|k: Seq<u8>| cs[t].1.lookup(k) is Some
            } by {
                if t == j {
                    assert(cs[t].1.lookup(key@.skip(i + 1)) is Some);
                }
            }
            lemma_insert_child_lookup(*old(self), *self, j as int, found, b, rest, bitmap, old_child);
            assert(self.wf());
        }
        added
    }
}

pub open spec fn node_header(n: Node) -> Seq<u8> {
    let flags = (2 * n.children@.len() + (if n.is_terminal { 1int } else { 0int })) as u8;
    if n.is_terminal {
        seq![flags] + le_u32(n.category_bitmap)
    } else {
        seq![flags]
    }
}

/// Relative offset stored in child entry `i`: from the entry's offset field to the child.
pub open spec fn child_offset(cs: Seq<(u8, Node)>, sub: Seq<Seq<u8>>, i: int) -> u32 {
    (5 * (cs.len() - i) - 1 + concat_all(sub.take(i)).len()) as u32
}

pub open spec fn entry_bytes(cs: Seq<(u8, Node)>, sub: Seq<Seq<u8>>, i: int) -> Seq<u8> {
    seq![cs[i].0] + le_u32(child_offset(cs, sub, i))
}

pub open spec fn entries_upto(cs: Seq<(u8, Node)>, sub: Seq<Seq<u8>>, k: int) -> Seq<u8>
    decreases k,
{
    if k <= 0 {
        Seq::empty()
    } else {
        entries_upto(cs, sub, k - 1) + entry_bytes(cs, sub, k - 1)
    }
}

pub open spec fn entries_bytes(cs: Seq<(u8, Node)>, sub: Seq<Seq<u8>>) -> Seq<u8> {
    entries_upto(cs, sub, cs.len() as int)
}

} // verus!

verus! {

/// A byte-keyed trie mapping keys to category bitmaps.
pub struct Trie {
    pub root: Node,
    pub count: usize,
}

impl View for Trie {
    type V = Map<Seq<u8>, u32>;

    open spec fn view(&self) -> Map<Seq<u8>, u32> {
        self.root.view_map()
    }
}

impl Trie {
    /// Well-formedness: a well-formed root, finitely many keys, and `count` equal to their number.
    pub open spec fn wf(self) -> bool {
        &&& self.root.wf()
        &&& self@.dom().finite()
        &&& self.count == self@.dom().len()
    }

    pub fn new() -> (t: Trie)
        ensures
            t.wf(),
            t@ == Map::<Seq<u8>, u32>::empty(),
    {
        let t = Trie { root: Node::new(), count: 0 };
        assert(t@ =~= Map::<Seq<u8>, u32>::empty());
        t
    }

    /// Inserts `key`, OR-ing `bitmap` into the bitmap already stored there (0 when absent).
    pub fn insert_bytes(&mut self, key: &[u8], bitmap: u32)
        requires
            old(self).wf(),
            old(self).count < usize::MAX,
        ensures
            final(self).wf(),
            final(self)@ == old(self)@.insert(key@, merged(old(self)@.get(key@), bitmap)),
    {
        let ghost old_map = self@;
        let added = self.root.insert_rec(key, 0, bitmap);
        assert(key@.skip(0) =~= key@);
        proof {
            let m = self@;
            let expected = old_map.insert(key@, merged(old_map.get(key@), bitmap));
            assert forall|k: Seq<u8>| #[trigger] m.contains_key(k) == expected.contains_key(k) by {
                assert(self.root.lookup(k) == (if k == key@ {
                    Some(merged(old(self).root.lookup(k), bitmap))
                } else {
                    old(self).root.lookup(k)
                }));
            }
            assert forall|k: Seq<u8>| m.contains_key(k) implies #[trigger] m[k] == expected[k] by {
                assert(self.root.lookup(k) == (if k == key@ {
                    Some(merged(old(self).root.lookup(k), bitmap))
                } else {
                    old(self).root.lookup(k)
                }));
            }
            assert(m =~= expected);
        }
        if added {
            self.count = self.count + 1;
        }
    }

    /// Inserts the UTF-8 bytes of `key`, OR-ing `bitmap` into the bitmap already stored there.
    pub fn insert(&mut self, key: &str, bitmap: u32)
        requires
            old(self).wf(),
            old(self).count < usize::MAX,
        ensures
            final(self).wf(),
            final(self)@ == old(self)@.insert(key.spec_bytes(), merged(old(self)@.get(key.spec_bytes()), bitmap)),
    {
        self.insert_bytes(key.as_bytes(), bitmap);
    }
}

} // verus!

verus! {

impl Node {
    /// No node in the subtree has more than 127 children (the flag byte holds the count in 7 bits).
    pub open spec fn fanout_ok(self) -> bool
        decreases self,
    {
        &&& self.children@.len() <= 127
        &&& forall|i: int| 0 <= i < self.children@.len() ==> (#[trigger] self.children@[i]).1.fanout_ok()
    }
}

impl Node {
    /// Whether no node of this subtree has more than 127 children.
    pub fn check_fanout(&self) -> (r: bool)
        ensures
            r == self.fanout_ok(),
        decreases self,
    {
        if self.children.len() > 127 {
            return false;
        }
        let mut i: usize = 0;
        while i < self.children.len()
            invariant
                i <= self.children@.len(),
                self.children@.len() <= 127,
                forall|j: int| 0 <= j < i ==> (#[trigger] self.children@[j]).1.fanout_ok(),
            decreases self.children@.len() - i,
        {
            if !self.children[i].1.check_fanout() {
                return false;
            }
            i = i + 1;
        }
        true
    }
}

pub proof fn lemma_sers(cs: Seq<(u8, Node)>)
    ensures
        Node::sers(cs).len() == cs.len(),
        forall|j: int| 0 <= j < cs.len() ==> #[trigger] Node::sers(cs)[j] == cs[j].1.ser(),
    decreases cs.len(),
{
    if cs.len() > 0 {
        lemma_sers(cs.drop_last());
    }
}

pub proof fn lemma_concat_take_step(sub: Seq<Seq<u8>>, i: int)
    requires
        0 <= i < sub.len(),
    ensures
        concat_all(sub.take(i + 1)) == concat_all(sub.take(i)) + sub[i],
{
    assert(sub.take(i + 1).drop_last() =~= sub.take(i));
}

pub proof fn lemma_entries_index(cs: Seq<(u8, Node)>, sub: Seq<Seq<u8>>, k: int)
    requires
        0 <= k <= cs.len(),
    ensures
        entries_upto(cs, sub, k).len() == 5 * k,
        forall|j: int, r: int| 0 <= j < k && 0 <= r < 5 ==> #[trigger] entries_upto(cs, sub, k)[5 * j + r] == entry_bytes(cs, sub, j)[r],
    decreases k,
{
    if k > 0 {
        lemma_entries_index(cs, sub, k - 1);
        let e = entries_upto(cs, sub, k);
        assert forall|j: int, r: int| 0 <= j < k && 0 <= r < 5 implies #[trigger] e[5 * j + r] == entry_bytes(cs, sub, j)[r] by {
            if j < k - 1 {
                assert(e[5 * j + r] == entries_upto(cs, sub, k - 1)[5 * j + r]);
            }
        }
    }
}

} // verus!

verus! {

pub proof fn lemma_concat_prefix(sub: Seq<Seq<u8>>, k: int)
    requires
        0 <= k <= sub.len(),
    ensures
        concat_all(sub.take(k)).len() <= concat_all(sub).len(),
        concat_all(sub).subrange(0, concat_all(sub.take(k)).len() as int) == concat_all(sub.take(k)),
    decreases sub.len(),
{
    if k == sub.len() {
        assert(sub.take(k) =~= sub);
        assert(concat_all(sub).subrange(0, concat_all(sub).len() as int) =~= concat_all(sub));
    } else {
        let s2 = sub.drop_last();
        lemma_concat_prefix(s2, k);
        assert(sub.take(k) =~= s2.take(k));
        let c = concat_all(sub);
        assert(c == concat_all(s2) + sub.last());
        assert(c.subrange(0, concat_all(sub.take(k)).len() as int) =~= concat_all(s2).subrange(0, concat_all(s2.take(k)).len() as int));
    }
}

/// The overall shape of a node's serialization: header, entries, then children.
pub proof fn lemma_ser_layout(node: Node)
    requires
        node.children@.len() <= 127,
    ensures
        ({
            let cs = node.children@;
            let n = cs.len() as int;
            let sub = Node::sers(cs);
            let s = node.ser();
            let h = node_header(node).len() as int;
            &&& sub.len() == n
            &&& h == (if node.is_terminal { 5int } else { 1int })
            &&& s.len() == h + 5 * n + concat_all(sub).len()
            &&& flag_children_of(s[0]) == n
            &&& flag_terminal_of(s[0]) == node.is_terminal
            &&& (node.is_terminal ==> s.subrange(1, 5) == le_u32(node.category_bitmap))
        }),
{
    let cs = node.children@;
    let n = cs.len() as int;
    let sub = Node::sers(cs);
    let s = node.ser();
    let hd = node_header(node);
    lemma_sers(cs);
    lemma_entries_index(cs, sub, n);
    lemma_flag_byte(n as nat, node.is_terminal);
    assert(s[0] == hd[0]);
    if node.is_terminal {
        assert(s.subrange(1, 5) =~= le_u32(node.category_bitmap));
    }
}

/// The bytes of child entry `i` in a node's serialization.
pub proof fn lemma_ser_entry(node: Node, i: int)
    requires
        node.children@.len() <= 127,
        0 <= i < node.children@.len(),
    ensures
        ({
            let cs = node.children@;
            let s = node.ser();
            let h = node_header(node).len() as int;
            &&& s[h + 5 * i] == cs[i].0
            &&& s.subrange(h + 5 * i + 1, h + 5 * i + 5) == le_u32(child_offset(cs, Node::sers(cs), i))
        }),
{
    let cs = node.children@;
    let n = cs.len() as int;
    let sub = Node::sers(cs);
    let s = node.ser();
    let hd = node_header(node);
    let h = hd.len() as int;
    let e = entries_bytes(cs, sub);
    lemma_entries_index(cs, sub, n);
    assert(s[h + 5 * i] == e[5 * i + 0]);
    let eb = entry_bytes(cs, sub, i);
    assert forall|r: int| 0 <= r < 4 implies s.subrange(h + 5 * i + 1, h + 5 * i + 5)[r] == le_u32(child_offset(cs, sub, i))[r] by {
        assert(s[h + 5 * i + 1 + r] == e[5 * i + (r + 1)]);
        assert(eb[r + 1] == le_u32(child_offset(cs, sub, i))[r]);
    }
    assert(s.subrange(h + 5 * i + 1, h + 5 * i + 5) =~= le_u32(child_offset(cs, sub, i)));
}

/// Where child `i`'s serialization lies inside its parent's.
pub proof fn lemma_ser_child(node: Node, i: int)
    requires
        node.children@.len() <= 127,
        0 <= i < node.children@.len(),
    ensures
        ({
            let cs = node.children@;
            let n = cs.len() as int;
            let sub = Node::sers(cs);
            let s = node.ser();
            let h = node_header(node).len() as int;
            let c = h + 5 * n + concat_all(sub.take(i)).len();
            &&& c + cs[i].1.ser().len() <= s.len()
            &&& s.subrange(c, c + cs[i].1.ser().len()) == cs[i].1.ser()
        }),
{
    let cs = node.children@;
    let n = cs.len() as int;
    let sub = Node::sers(cs);
    let s = node.ser();
    let h = node_header(node).len() as int;
    lemma_sers(cs);
    lemma_entries_index(cs, sub, n);
    lemma_concat_prefix(sub, i + 1);
    lemma_concat_take_step(sub, i);
    let ct = concat_all(sub.take(i));
    let ct1 = concat_all(sub.take(i + 1));
    let all = concat_all(sub);
    let c = h + 5 * n + ct.len();
    assert(s == node_header(node) + entries_bytes(cs, sub) + all);
    assert(all.subrange(0, ct1.len() as int) == ct1);
    assert(s.subrange(c, c + sub[i].len()) =~= all.subrange(ct.len() as int, ct1.len() as int));
    assert(ct1.subrange(ct.len() as int, ct1.len() as int) =~= sub[i]);
    assert(all.subrange(ct.len() as int, ct1.len() as int) =~= all.subrange(0, ct1.len() as int).subrange(ct.len() as int, ct1.len() as int));
}

pub open spec fn flag_children_of(f: u8) -> int {
    (f >> 1u8) as int
}

pub open spec fn flag_terminal_of(f: u8) -> bool {
    f & 1u8 != 0
}

pub proof fn lemma_flag_byte(n: nat, t: bool)
    requires
        n <= 127,
    ensures
        flag_children_of((2 * n + (if t { 1int } else { 0int })) as u8) == n,
        flag_terminal_of((2 * n + (if t { 1int } else { 0int })) as u8) == t,
{
    let nn = n as u8;
    let f = (2 * n + (if t { 1int } else { 0int })) as u8;
    if t {
        assert(f == (2 * nn + 1) as u8);
        assert(nn <= 127 ==> ((2 * nn + 1) as u8) >> 1u8 == nn && ((2 * nn + 1) as u8) & 1u8 != 0) by (bit_vector);
    } else {
        assert(f == (2 * nn) as u8);
        assert(nn <= 127 ==> ((2 * nn) as u8) >> 1u8 == nn && ((2 * nn) as u8) & 1u8 == 0) by (bit_vector);
    }
}

} // verus!

verus! {

proof fn lemma_child_index_drop_first(s: Seq<(u8, Node)>, z: u8)
    requires
        sorted_children(s),
        s.len() > 0,
    ensures
        (child_index(s.drop_first(), z) is Some) == (child_index(s, z) is Some && z != s[0].0),
{
    let t = s.drop_first();
    assert(sorted_children(t));
    if child_index(t, z) is Some {
        let i = child_index(t, z)->0;
        lemma_child_index_at(t, i);
        assert(s[i + 1].0 == z);
        assert(s[0].0 < s[i + 1].0);
        lemma_child_index_at(s, i + 1);
    }
    if child_index(s, z) is Some && z != s[0].0 {
        let i = child_index(s, z)->0;
        lemma_child_index_at(s, i);
        assert(i != 0);
        assert(t[i - 1].0 == z);
        lemma_child_index_at(t, i - 1);
    }
}

/// Two strictly sorted child lists with the same set of edge bytes have the same bytes in the same places.
proof fn lemma_sorted_same_bytes(a: Seq<(u8, Node)>, b: Seq<(u8, Node)>)
    requires
        sorted_children(a),
        sorted_children(b),
        forall|x: u8| (#[trigger] child_index(a, x) is Some) == (child_index(b, x) is Some),
    ensures
        a.len() == b.len(),
        forall|i: int| 0 <= i < a.len() ==> #[trigger] a[i].0 == b[i].0,
    decreases a.len(),
{
    if a.len() == 0 || b.len() == 0 {
        if a.len() > 0 {
            lemma_child_index_at(a, 0);
            assert(child_index(b, a[0].0) is Some);
        }
        if b.len() > 0 {
            lemma_child_index_at(b, 0);
            assert(child_index(a, b[0].0) is Some);
        }
    } else {
        let x = a[0].0;
        let y = b[0].0;
        lemma_child_index_at(a, 0);
        lemma_child_index_at(b, 0);
        assert(child_index(b, x) is Some);
        assert(child_index(a, y) is Some);
        let j = child_index(b, x)->0;
        lemma_child_index_at(b, j);
        let k = child_index(a, y)->0;
        lemma_child_index_at(a, k);
        if j > 0 {
            assert(y < x);
            if k > 0 {
                assert(a[0].0 < a[k].0);
            }
        }
        assert(x == y);
        assert forall|z: u8| (#[trigger] child_index(a.drop_first(), z) is Some) == (child_index(b.drop_first(), z) is Some) by {
            lemma_child_index_drop_first(a, z);
            lemma_child_index_drop_first(b, z);
        }
        lemma_sorted_same_bytes(a.drop_first(), b.drop_first());
        assert forall|i: int| 0 <= i < a.len() implies #[trigger] a[i].0 == b[i].0 by {
            if i > 0 {
                assert(a[i] == a.drop_first()[i - 1]);
                assert(b[i] == b.drop_first()[i - 1]);
            }
        }
    }
}

proof fn lemma_entries_same_bytes(ca: Seq<(u8, Node)>, cb: Seq<(u8, Node)>, sub: Seq<Seq<u8>>, k: int)
    requires
        ca.len() == cb.len(),
        forall|i: int| 0 <= i < ca.len() ==> #[trigger] ca[i].0 == cb[i].0,
        k <= ca.len(),
    ensures
        entries_upto(ca, sub, k) == entries_upto(cb, sub, k),
    decreases k,
{
    if k > 0 {
        lemma_entries_same_bytes(ca, cb, sub, k - 1);
        assert(entry_bytes(ca, sub, k - 1) == entry_bytes(cb, sub, k - 1));
    }
}

proof fn lemma_lookup_child(n: Node, i: int, k: Seq<u8>)
    requires
        sorted_children(n.children@),
        0 <= i < n.children@.len(),
    ensures
        n.lookup(seq![n.children@[i].0] + k) == n.children@[i].1.lookup(k),
{
    let key = seq![n.children@[i].0] + k;
    lemma_child_index_at(n.children@, i);
    assert(key[0] == n.children@[i].0);
    assert(key.drop_first() =~= k);
}

/// A well-formed trie is determined by the map it stores: two well-formed tries storing the
/// same map serialize to the same bytes and have the same fan-out.
pub proof fn lemma_canonical(a: Node, b: Node)
    requires
        a.wf(),
        b.wf(),
        forall|k: Seq<u8>| #[trigger] a.lookup(k) == b.lookup(k),
    ensures
        a.ser() == b.ser(),
        a.fanout_ok() == b.fanout_ok(),
        a.entries() == b.entries(),
    decreases a,
{
    let ca = a.children@;
    let cb = b.children@;
    assert(a.lookup(Seq::empty()) == b.lookup(Seq::empty()));
    assert forall|x: u8| (#[trigger] child_index(ca, x) is Some) == (child_index(cb, x) is Some) by {
        if child_index(ca, x) is Some {
            let i = child_index(ca, x)->0;
            lemma_child_index_at(ca, i);
            let k = choose|k: Seq<u8>| ca[i].1.lookup(k) is Some;
            lemma_lookup_child(a, i, k);
            assert(b.lookup(seq![x] + k) is Some);
            if child_index(cb, x) is None {
                assert((seq![x] + k)[0] == x);
            }
        }
        if child_index(cb, x) is Some {
            let i = child_index(cb, x)->0;
            lemma_child_index_at(cb, i);
            let k = choose|k: Seq<u8>| cb[i].1.lookup(k) is Some;
            lemma_lookup_child(b, i, k);
            assert(a.lookup(seq![x] + k) is Some);
            if child_index(ca, x) is None {
                assert((seq![x] + k)[0] == x);
            }
        }
    }
    lemma_sorted_same_bytes(ca, cb);
    assert forall|i: int| 0 <= i < ca.len() implies (#[trigger] ca[i]).1.ser() == cb[i].1.ser() && ca[i].1.fanout_ok() == cb[i].1.fanout_ok()
        && ca[i].1.entries() == cb[i].1.entries() by {
        assert forall|k: Seq<u8>| #[trigger] ca[i].1.lookup(k) == cb[i].1.lookup(k) by {
            lemma_lookup_child(a, i, k);
            lemma_lookup_child(b, i, k);
        }
        lemma_canonical(ca[i].1, cb[i].1);
    }
    lemma_sers(ca);
    lemma_sers(cb);
    assert(Node::sers(ca) =~= Node::sers(cb));
    lemma_entries_same_bytes(ca, cb, Node::sers(ca), ca.len() as int);
    assert(node_header(a) == node_header(b));
    lemma_child_entries_same(ca, cb);
    if a.fanout_ok() {
        assert forall|i: int| 0 <= i < cb.len() implies (#[trigger] cb[i]).1.fanout_ok() by {
            assert(ca[i].1.fanout_ok());
        }
    }
    if b.fanout_ok() {
        assert forall|i: int| 0 <= i < ca.len() implies (#[trigger] ca[i]).1.fanout_ok() by {
            assert(cb[i].1.fanout_ok());
        }
    }
}

proof fn lemma_child_entries_same(ca: Seq<(u8, Node)>, cb: Seq<(u8, Node)>)
    requires
        ca.len() == cb.len(),
        forall|i: int| 0 <= i < ca.len() ==> #[trigger] ca[i].0 == cb[i].0,
        forall|i: int| 0 <= i < ca.len() ==> (#[trigger] ca[i]).1.entries() == cb[i].1.entries(),
    ensures
        Node::child_entries(ca) == Node::child_entries(cb),
    decreases ca.len(),
{
    if ca.len() > 0 {
        let a2 = ca.drop_last();
        let b2 = cb.drop_last();
        assert forall|i: int| 0 <= i < a2.len() implies #[trigger] a2[i].0 == b2[i].0 by {
            assert(a2[i] == ca[i]);
            assert(b2[i] == cb[i]);
        }
        assert forall|i: int| 0 <= i < a2.len() implies (#[trigger] a2[i]).1.entries() == b2[i].1.entries() by {
            assert(a2[i] == ca[i]);
            assert(b2[i] == cb[i]);
        }
        lemma_child_entries_same(a2, b2);
        assert(ca.last() == ca[ca.len() - 1]);
        assert(cb.last() == cb[cb.len() - 1]);
    }
}

/// The canonical trie storing `m` (any well-formed trie storing `m` serializes the same way).
pub open spec fn canonical_trie(m: Map<Seq<u8>, u32>) -> Node {
    choose|n: Node| n.wf() && n.view_map() == m
}

/// The entries of the trie storing `m`, in depth-first (byte-lexicographic) order.
pub open spec fn trie_entries(m: Map<Seq<u8>, u32>) -> Seq<(Seq<u8>, u32)> {
    canonical_trie(m).entries()
}

/// The serialized trie storing `m`.
pub open spec fn trie_image(m: Map<Seq<u8>, u32>) -> Seq<u8> {
    canonical_trie(m).ser()
}

pub proof fn lemma_trie_image(n: Node)
    requires
        n.wf(),
    ensures
        trie_image(n.view_map()) == n.ser(),
        canonical_trie(n.view_map()).fanout_ok() == n.fanout_ok(),
        canonical_trie(n.view_map()).entries() == n.entries(),
{
    let c = canonical_trie(n.view_map());
    assert(c.wf() && c.view_map() == n.view_map());
    assert forall|k: Seq<u8>| #[trigger] c.lookup(k) == n.lookup(k) by {
        assert(c.view_map().contains_key(k) == n.view_map().contains_key(k));
        if n.lookup(k) is Some {
            assert(c.view_map()[k] == n.view_map()[k]);
        }
    }
    lemma_canonical(c, n);
}

} // verus!

verus! {

/// Each key of `ts` prefixed by `p`.
pub open spec fn with_prefix(p: Seq<u8>, ts: Seq<(Seq<u8>, u32)>) -> Seq<(Seq<u8>, u32)> {
    ts.map_values(|e: (Seq<u8>, u32)| (p + e.0, e.1))
}

pub open spec fn entry_views(v: Seq<(Vec<u8>, u32)>) -> Seq<(Seq<u8>, u32)> {
    v.map_values(|e: (Vec<u8>, u32)| (e.0@, e.1))
}

pub proof fn lemma_with_prefix_push(p: Seq<u8>, b: u8, ts: Seq<(Seq<u8>, u32)>)
    ensures
        with_prefix(p.push(b), ts) == with_prefix(p, with_prefix(seq![b], ts)),
{
    assert forall|i: int| 0 <= i < ts.len() implies with_prefix(p.push(b), ts)[i] == with_prefix(p, with_prefix(seq![b], ts))[i] by {
        assert(p.push(b) + ts[i].0 =~= p + (seq![b] + ts[i].0));
    }
    assert(with_prefix(p.push(b), ts) =~= with_prefix(p, with_prefix(seq![b], ts)));
}

pub proof fn lemma_with_prefix_concat(p: Seq<u8>, a: Seq<(Seq<u8>, u32)>, b: Seq<(Seq<u8>, u32)>)
    ensures
        with_prefix(p, a + b) == with_prefix(p, a) + with_prefix(p, b),
{
    assert(with_prefix(p, a + b) =~= with_prefix(p, a) + with_prefix(p, b));
}


impl Node {
    /// Every (key, bitmap) stored in the subtree, depth first, children in edge order.
    pub open spec fn entries(self) -> Seq<(Seq<u8>, u32)>
        decreases self, 1int,
    {
        let own = if self.is_terminal {
            seq![(Seq::<u8>::empty(), self.category_bitmap)]
        } else {
            Seq::empty()
        };
        own + Node::child_entries(self.children@)
    }

    pub open spec fn child_entries(cs: Seq<(u8, Node)>) -> Seq<(Seq<u8>, u32)>
        decreases cs, 0int,
    {
        if cs.len() == 0 {
            Seq::empty()
        } else {
            Node::child_entries(cs.drop_last()) + with_prefix(seq![cs.last().0], cs.last().1.entries())
        }
    }

    /// Appends every stored entry, keys prefixed by `prefix`.
    #[verifier::spinoff_prover]
    fn collect_entries(&self, prefix: &mut Vec<u8>, out: &mut Vec<(Vec<u8>, u32)>)
        ensures
            final(prefix)@ == old(prefix)@,
            entry_views(final(out)@) == entry_views(old(out)@) + with_prefix(old(prefix)@, self.entries()),
        decreases self,
    {
        let ghost own = if self.is_terminal {
            seq![(Seq::<u8>::empty(), self.category_bitmap)]
        } else {
            Seq::empty()
        };
        if self.is_terminal {
            let key = copy_bytes(prefix);
            out.push((key, self.category_bitmap));
            assert(prefix@ + Seq::<u8>::empty() =~= prefix@);
        }
        assert(entry_views(out@) =~= entry_views(old(out)@) + with_prefix(prefix@, own));
        let ghost cs = self.children@;
        let n = self.children.len();
        let mut i: usize = 0;
        assert(cs.take(0) =~= Seq::<(u8, Node)>::empty());
        while i < n
            invariant
                cs == self.children@,
                n == cs.len(),
                i <= n,
                prefix@ == old(prefix)@,
                entry_views(out@) == entry_views(old(out)@) + with_prefix(prefix@, own + Node::child_entries(cs.take(i as int))),
            decreases n - i,
        {
            let b = self.children[i].0;
            prefix.push(b);
            self.children[i].1.collect_entries(prefix, out);
            proof {
                lemma_with_prefix_push(old(prefix)@, b, cs[i as int].1.entries());
            }
            prefix.pop();
            assert(prefix@ =~= old(prefix)@);
            proof {
                assert(cs.take(i + 1).drop_last() =~= cs.take(i as int));
                assert(Node::child_entries(cs.take(i + 1)) == Node::child_entries(cs.take(i as int)) + with_prefix(seq![b], cs[i as int].1.entries()));
                lemma_with_prefix_concat(prefix@, own + Node::child_entries(cs.take(i as int)), with_prefix(seq![b], cs[i as int].1.entries()));
                assert(own + Node::child_entries(cs.take(i + 1)) =~= (own + Node::child_entries(cs.take(i as int))) + with_prefix(seq![b], cs[i as int].1.entries()));
            }
            i = i + 1;
        }
        assert(cs.take(n as int) =~= cs);
    }
}

proof fn lemma_child_entries_contains(cs: Seq<(u8, Node)>, k: Seq<u8>, v: u32)
    ensures
        Node::child_entries(cs).contains((k, v)) <==> exists|i: int| 0 <= i < cs.len() && k.len() > 0 && k[0] == cs[i].0
            && #[trigger] cs[i].1.entries().contains((k.drop_first(), v)),
    decreases cs.len(),
{
    if cs.len() > 0 {
        let init = cs.drop_last();
        let last = cs.last();
        let tail = with_prefix(seq![last.0], last.1.entries());
        lemma_child_entries_contains(init, k, v);
        let ce = Node::child_entries(cs);
        assert(ce == Node::child_entries(init) + tail);
        if ce.contains((k, v)) {
            let j = choose|j: int| 0 <= j < ce.len() && ce[j] == (k, v);
            if j >= Node::child_entries(init).len() {
                let t = j - Node::child_entries(init).len();
                let e = last.1.entries()[t];
                assert(tail[t] == (seq![last.0] + e.0, e.1));
                assert((seq![last.0] + e.0).drop_first() =~= e.0);
                assert(last.1.entries().contains((k.drop_first(), v)));
                assert(cs[cs.len() - 1] == last);
            } else {
                assert(Node::child_entries(init)[j] == (k, v));
                assert(Node::child_entries(init).contains((k, v)));
                let i = choose|i: int| 0 <= i < init.len() && k.len() > 0 && k[0] == init[i].0
                    && #[trigger] init[i].1.entries().contains((k.drop_first(), v));
                assert(cs[i] == init[i]);
            }
        }
        if exists|i: int| 0 <= i < cs.len() && k.len() > 0 && k[0] == cs[i].0
            && #[trigger] cs[i].1.entries().contains((k.drop_first(), v)) {
            let i = choose|i: int| 0 <= i < cs.len() && k.len() > 0 && k[0] == cs[i].0
                && #[trigger] cs[i].1.entries().contains((k.drop_first(), v));
            if i == cs.len() - 1 {
                let es = last.1.entries();
                let t = choose|t: int| 0 <= t < es.len() && es[t] == (k.drop_first(), v);
                assert(seq![last.0] + k.drop_first() =~= k);
                assert(tail[t] == (k, v));
                assert(ce[Node::child_entries(init).len() + t] == (k, v));
            } else {
                assert(init[i] == cs[i]);
                assert(Node::child_entries(init).contains((k, v)));
                let j = choose|j: int| 0 <= j < Node::child_entries(init).len() && Node::child_entries(init)[j] == (k, v);
                assert(ce[j] == (k, v));
            }
        }
    }
}

/// The entries of a well-formed node are exactly the pairs its lookup gives.
pub proof fn lemma_entries_contains(n: Node, k: Seq<u8>, v: u32)
    requires
        n.wf(),
    ensures
        n.entries().contains((k, v)) <==> n.lookup(k) == Some(v),
    decreases n,
{
    let cs = n.children@;
    let own = if n.is_terminal {
        seq![(Seq::<u8>::empty(), n.category_bitmap)]
    } else {
        Seq::empty()
    };
    let es = n.entries();
    assert(es == own + Node::child_entries(cs));
    lemma_child_entries_contains(cs, k, v);
    if k.len() == 0 {
        if es.contains((k, v)) {
            let j = choose|j: int| 0 <= j < es.len() && es[j] == (k, v);
            if j >= own.len() {
                assert(Node::child_entries(cs)[j - own.len()] == (k, v));
                assert(Node::child_entries(cs).contains((k, v)));
            }
        }
        if n.lookup(k) == Some(v) {
            assert(k =~= Seq::<u8>::empty());
            assert(es[0] == (k, v));
        }
    } else {
        if es.contains((k, v)) {
            let j = choose|j: int| 0 <= j < es.len() && es[j] == (k, v);
            assert(j >= own.len());
            assert(Node::child_entries(cs)[j - own.len()] == (k, v));
            assert(Node::child_entries(cs).contains((k, v)));
            let i = choose|i: int| 0 <= i < cs.len() && k.len() > 0 && k[0] == cs[i].0
                && #[trigger] cs[i].1.entries().contains((k.drop_first(), v));
            lemma_entries_contains(cs[i].1, k.drop_first(), v);
            lemma_child_index_at(cs, i);
        }
        if n.lookup(k) == Some(v) {
            let i = child_index(cs, k[0])->0;
            lemma_child_index_at(cs, i);
            lemma_entries_contains(cs[i].1, k.drop_first(), v);
            assert(cs[i].1.entries().contains((k.drop_first(), v)));
            assert(Node::child_entries(cs).contains((k, v)));
            let j = choose|j: int| 0 <= j < Node::child_entries(cs).len() && Node::child_entries(cs)[j] == (k, v);
            assert(es[own.len() + j] == (k, v));
        }
    }
}

} // verus!

verus! {

impl Node {
    /// The child reached by edge byte `b`.
    pub fn child(&self, b: u8) -> (r: Option<&Node>)
        requires
            sorted_children(self.children@),
        ensures
            (r is Some) == (child_index(self.children@, b) is Some),
            r matches Some(c) ==> *c == self.children@[child_index(self.children@, b)->0].1,
    {
        let n = self.children.len();
        let mut i: usize = 0;
        while i < n
            invariant
                n == self.children@.len(),
                sorted_children(self.children@),
                i <= n,
                forall|t: int| 0 <= t < i ==> self.children@[t].0 != b,
            decreases n - i,
        {
            if self.children[i].0 == b {
                proof {
                    lemma_child_index_at(self.children@, i as int);
                }
                return Some(&self.children[i].1);
            }
            i = i + 1;
        }
        None
    }

    /// The bitmap stored under `key`.
    pub fn get_bytes(&self, key: &[u8]) -> (r: Option<u32>)
        requires
            self.wf(),
        ensures
            r == self.lookup(key@),
    {
        let mut node = self;
        let mut i: usize = 0;
        assert(key@.skip(0) =~= key@);
        while i < key.len()
            invariant
                i <= key@.len(),
                node.wf(),
                node.lookup(key@.skip(i as int)) == self.lookup(key@),
            decreases key@.len() - i,
        {
            let ghost rest = key@.skip(i as int);
            assert(rest[0] == key@[i as int]);
            match node.child(key[i]) {
                Some(c) => {
                    proof {
                        let ci = child_index(node.children@, key@[i as int])->0;
                        lemma_child_index_at(node.children@, ci);
                        assert(rest.drop_first() =~= key@.skip(i + 1));
                    }
                    node = c;
                },
                None => {
                    return None;
                },
            }
            i = i + 1;
        }
        assert(key@.skip(i as int) =~= Seq::<u8>::empty());
        if node.is_terminal {
            Some(node.category_bitmap)
        } else {
            None
        }
    }
}

impl Trie {
    /// Number of stored keys.
    pub fn len(&self) -> (r: usize)
        requires
            self.wf(),
        ensures
            r == self@.dom().len(),
    {
        self.count
    }

    pub fn is_empty(&self) -> (r: bool)
        requires
            self.wf(),
        ensures
            r == (self@.dom().len() == 0),
    {
        self.count == 0
    }

    /// The bitmap stored under the UTF-8 bytes of `key`.
    pub fn get(&self, key: &str) -> (r: Option<u32>)
        requires
            self.wf(),
        ensures
            r == self@.get(key.spec_bytes()),
    {
        let r = self.root.get_bytes(key.as_bytes());
        assert(self@.get(key.spec_bytes()) == self.root.lookup(key.spec_bytes()));
        r
    }

    /// Whether the UTF-8 bytes of `key` are stored.
    pub fn contains_key(&self, key: &str) -> (r: bool)
        requires
            self.wf(),
        ensures
            r == self@.contains_key(key.spec_bytes()),
    {
        self.get(key).is_some()
    }

    /// Every stored (key, bitmap), keys in byte-lexicographic order.
    pub fn entries(&self) -> (r: Vec<(Vec<u8>, u32)>)
        requires
            self.wf(),
        ensures
            entry_views(r@) == self.root.entries(),
            forall|k: Seq<u8>, v: u32| #[trigger] entry_views(r@).contains((k, v)) <==> self@.contains_key(k) && self@[k] == v,
            keys_sorted(entry_views(r@)),
    {
        proof {
            lemma_entries_sorted(self.root);
        }
        let mut prefix: Vec<u8> = Vec::new();
        let mut out: Vec<(Vec<u8>, u32)> = Vec::new();
        self.root.collect_entries(&mut prefix, &mut out);
        assert(entry_views(Seq::<(Vec<u8>, u32)>::empty()) =~= Seq::empty());
        let ghost es = self.root.entries();
        assert forall|i: int| 0 <= i < es.len() implies with_prefix(Seq::empty(), es)[i] == es[i] by {
            assert(Seq::<u8>::empty() + es[i].0 =~= es[i].0);
        }
        assert(with_prefix(Seq::empty(), es) =~= es);
        assert(entry_views(out@) =~= es);
        assert forall|k: Seq<u8>, v: u32| #[trigger] entry_views(out@).contains((k, v)) <==> self@.contains_key(k) && self@[k] == v by {
            lemma_entries_contains(self.root, k, v);
        }
        out
    }
}

impl Default for Trie {
    fn default() -> (t: Trie)
        ensures
            t.wf(),
            t@ == Map::<Seq<u8>, u32>::empty(),
    {
        Trie::new()
    }
}

} // verus!

verus! {

/// No key occurs twice among the entries.
pub open spec fn distinct_keys(es: Seq<(Seq<u8>, u32)>) -> bool {
    forall|i: int, j: int| 0 <= i < j < es.len() ==> (#[trigger] es[i]).0 != (#[trigger] es[j]).0
}

proof fn lemma_with_prefix_distinct(b: u8, es: Seq<(Seq<u8>, u32)>)
    requires
        distinct_keys(es),
    ensures
        distinct_keys(with_prefix(seq![b], es)),
        forall|i: int| 0 <= i < es.len() ==> (#[trigger] with_prefix(seq![b], es)[i]).0.len() > 0
            && with_prefix(seq![b], es)[i].0[0] == b,
{
    let w = with_prefix(seq![b], es);
    assert forall|i: int, j: int| 0 <= i < j < w.len() implies (#[trigger] w[i]).0 != (#[trigger] w[j]).0 by {
        assert(w[i].0 == seq![b] + es[i].0);
        assert(w[j].0 == seq![b] + es[j].0);
        if w[i].0 == w[j].0 {
            assert(w[i].0.drop_first() =~= es[i].0);
            assert(w[j].0.drop_first() =~= es[j].0);
        }
    }
    assert forall|i: int| 0 <= i < es.len() implies (#[trigger] w[i]).0.len() > 0 && w[i].0[0] == b by {
        assert(w[i].0 == seq![b] + es[i].0);
    }
}

/// The entries of a well-formed node name each key once.
pub proof fn lemma_entries_distinct(n: Node)
    requires
        n.wf(),
    ensures
        distinct_keys(n.entries()),
    decreases n, 1int,
{
    let cs = n.children@;
    lemma_child_entries_distinct(cs);
    let own = if n.is_terminal {
        seq![(Seq::<u8>::empty(), n.category_bitmap)]
    } else {
        Seq::empty()
    };
    let ce = Node::child_entries(cs);
    let es = n.entries();
    assert(es == own + ce);
    assert forall|i: int, j: int| 0 <= i < j < es.len() implies (#[trigger] es[i]).0 != (#[trigger] es[j]).0 by {
        if i < own.len() {
            assert(es[j] == ce[j - own.len()]);
        } else {
            assert(es[i] == ce[i - own.len()]);
            assert(es[j] == ce[j - own.len()]);
        }
    }
}

proof fn lemma_child_entries_distinct(cs: Seq<(u8, Node)>)
    requires
        sorted_children(cs),
        forall|i: int| 0 <= i < cs.len() ==> (#[trigger] cs[i]).1.wf(),
    ensures
        distinct_keys(Node::child_entries(cs)),
        forall|j: int| 0 <= j < Node::child_entries(cs).len() ==> {
            &&& (#[trigger] Node::child_entries(cs)[j]).0.len() > 0
            &&& exists|i: int| 0 <= i < cs.len() && Node::child_entries(cs)[j].0[0] == cs[i].0
        },
    decreases cs, 0int,
{
    if cs.len() > 0 {
        let init = cs.drop_last();
        let last = cs.last();
        assert(sorted_children(init)) by {
            assert forall|i: int, j: int| 0 <= i < j < init.len() implies init[i].0 < init[j].0 by {
                assert(init[i] == cs[i] && init[j] == cs[j]);
            }
        }
        assert forall|i: int| 0 <= i < init.len() implies (#[trigger] init[i]).1.wf() by {
            assert(init[i] == cs[i]);
        }
        lemma_child_entries_distinct(init);
        assert(last == cs[cs.len() - 1]);
        lemma_entries_distinct(last.1);
        lemma_with_prefix_distinct(last.0, last.1.entries());
        let a = Node::child_entries(init);
        let t = with_prefix(seq![last.0], last.1.entries());
        let ce = Node::child_entries(cs);
        assert(ce == a + t);
        assert forall|j: int| 0 <= j < a.len() implies (#[trigger] a[j]).0[0] < last.0 by {
            let i = choose|i: int| 0 <= i < init.len() && a[j].0[0] == init[i].0;
            assert(init[i] == cs[i]);
        }
        assert forall|i: int, j: int| 0 <= i < j < ce.len() implies (#[trigger] ce[i]).0 != (#[trigger] ce[j]).0 by {
            if j < a.len() {
                assert(ce[i] == a[i] && ce[j] == a[j]);
            } else if i >= a.len() {
                assert(ce[i] == t[i - a.len()] && ce[j] == t[j - a.len()]);
            } else {
                assert(ce[i] == a[i] && ce[j] == t[j - a.len()]);
                assert(a[i].0[0] < last.0);
                assert(t[j - a.len()].0[0] == last.0);
            }
        }
        assert forall|j: int| 0 <= j < ce.len() implies {
            &&& (#[trigger] ce[j]).0.len() > 0
            &&& exists|i: int| 0 <= i < cs.len() && ce[j].0[0] == cs[i].0
        } by {
            if j < a.len() {
                assert(ce[j] == a[j]);
                let i = choose|i: int| 0 <= i < init.len() && a[j].0[0] == init[i].0;
                assert(init[i] == cs[i]);
            } else {
                assert(ce[j] == t[j - a.len()]);
                assert(ce[j].0[0] == cs[cs.len() - 1].0);
            }
        }
    }
}

} // verus!

verus! {

/// Strict byte-lexicographic order: `a` is a proper prefix of `b`, or `a` has the smaller
/// byte where they first differ.
pub open spec fn key_lt(a: Seq<u8>, b: Seq<u8>) -> bool {
    ||| (a.len() < b.len() && b.take(a.len() as int) == a)
    ||| exists|i: int| 0 <= i < a.len() && i < b.len() && a.take(i) == b.take(i) && #[trigger] a[i] < #[trigger] b[i]
}

/// The keys increase strictly in byte-lexicographic order.
pub open spec fn keys_sorted(es: Seq<(Seq<u8>, u32)>) -> bool {
    forall|i: int, j: int| 0 <= i < j < es.len() ==> key_lt((#[trigger] es[i]).0, (#[trigger] es[j]).0)
}

proof fn lemma_key_lt_prefix(b: u8, x: Seq<u8>, y: Seq<u8>)
    requires
        key_lt(x, y),
    ensures
        key_lt(seq![b] + x, seq![b] + y),
{
    let px = seq![b] + x;
    let py = seq![b] + y;
    if x.len() < y.len() && y.take(x.len() as int) == x {
        assert(py.take(px.len() as int) =~= px);
    } else {
        let i = choose|i: int| 0 <= i < x.len() && i < y.len() && x.take(i) == y.take(i) && #[trigger] x[i] < #[trigger] y[i];
        assert(px.take(i + 1) =~= seq![b] + x.take(i));
        assert(py.take(i + 1) =~= seq![b] + y.take(i));
        assert(px[i + 1] == x[i] && py[i + 1] == y[i]);
    }
}

proof fn lemma_with_prefix_sorted(b: u8, es: Seq<(Seq<u8>, u32)>)
    requires
        keys_sorted(es),
    ensures
        keys_sorted(with_prefix(seq![b], es)),
{
    let w = with_prefix(seq![b], es);
    assert forall|i: int, j: int| 0 <= i < j < w.len() implies key_lt((#[trigger] w[i]).0, (#[trigger] w[j]).0) by {
        lemma_key_lt_prefix(b, es[i].0, es[j].0);
    }
}

/// The entries of a well-formed node come in strictly increasing byte-lexicographic key order.
pub proof fn lemma_entries_sorted(n: Node)
    requires
        n.wf(),
    ensures
        keys_sorted(n.entries()),
    decreases n, 1int,
{
    let cs = n.children@;
    lemma_child_entries_sorted(cs);
    lemma_child_entries_distinct(cs);
    let own = if n.is_terminal {
        seq![(Seq::<u8>::empty(), n.category_bitmap)]
    } else {
        Seq::empty()
    };
    let ce = Node::child_entries(cs);
    let es = n.entries();
    assert(es == own + ce);
    assert forall|i: int, j: int| 0 <= i < j < es.len() implies key_lt((#[trigger] es[i]).0, (#[trigger] es[j]).0) by {
        if i < own.len() {
            assert(es[j] == ce[j - own.len()]);
            assert(ce[j - own.len()].0.len() > 0);
            assert(es[j].0.take(0) =~= es[i].0);
        } else {
            assert(es[i] == ce[i - own.len()]);
            assert(es[j] == ce[j - own.len()]);
        }
    }
}

proof fn lemma_child_entries_sorted(cs: Seq<(u8, Node)>)
    requires
        sorted_children(cs),
        forall|i: int| 0 <= i < cs.len() ==> (#[trigger] cs[i]).1.wf(),
    ensures
        keys_sorted(Node::child_entries(cs)),
    decreases cs, 0int,
{
    if cs.len() > 0 {
        let init = cs.drop_last();
        let last = cs.last();
        assert(sorted_children(init)) by {
            assert forall|i: int, j: int| 0 <= i < j < init.len() implies init[i].0 < init[j].0 by {
                assert(init[i] == cs[i] && init[j] == cs[j]);
            }
        }
        assert forall|i: int| 0 <= i < init.len() implies (#[trigger] init[i]).1.wf() by {
            assert(init[i] == cs[i]);
        }
        lemma_child_entries_sorted(init);
        lemma_child_entries_distinct(init);
        assert(last == cs[cs.len() - 1]);
        lemma_entries_sorted(last.1);
        lemma_with_prefix_sorted(last.0, last.1.entries());
        lemma_with_prefix_distinct(last.0, last.1.entries());
        let a = Node::child_entries(init);
        let t = with_prefix(seq![last.0], last.1.entries());
        let ce = Node::child_entries(cs);
        assert(ce == a + t);
        assert forall|j: int| 0 <= j < a.len() implies (#[trigger] a[j]).0[0] < last.0 by {
            let i = choose|i: int| 0 <= i < init.len() && a[j].0[0] == init[i].0;
            assert(init[i] == cs[i]);
        }
        assert forall|i: int, j: int| 0 <= i < j < ce.len() implies key_lt((#[trigger] ce[i]).0, (#[trigger] ce[j]).0) by {
            if j < a.len() {
                assert(ce[i] == a[i] && ce[j] == a[j]);
            } else if i >= a.len() {
                assert(ce[i] == t[i - a.len()] && ce[j] == t[j - a.len()]);
            } else {
                assert(ce[i] == a[i] && ce[j] == t[j - a.len()]);
                let x = a[i].0;
                let y = t[j - a.len()].0;
                assert(x[0] < last.0 && y[0] == last.0);
                assert(x.take(0) =~= y.take(0));
                assert(x[0] < y[0]);
            }
        }
    }
}

} // verus!

verus! {

/// Work left for the serializer: write a subtree, or fill in a child offset.
enum Work<'a> {
    Serialize(&'a Node),
    PatchOffset(usize),
}

/// The bytes a work item still appends.
spec fn work_out(w: Work) -> Seq<u8> {
    match w {
        Work::Serialize(n) => n.ser(),
        Work::PatchOffset(_) => Seq::empty(),
    }
}

/// The bytes a work stack still appends, top of the stack (its last item) first.
spec fn work_rest(ws: Seq<Work>) -> Seq<u8>
    decreases ws.len(),
{
    if ws.len() == 0 {
        Seq::empty()
    } else {
        work_out(ws.last()) + work_rest(ws.drop_last())
    }
}

/// Whether position `q` lies in the offset field a work item still has to fill in.
spec fn patches(w: Work, q: int) -> bool {
    match w {
        Work::PatchOffset(p) => p <= q < p + 4,
        Work::Serialize(_) => false,
    }
}

/// Whether position `q` lies in an offset field that some work item still has to fill in.
spec fn pending_at(ws: Seq<Work>, q: int) -> bool {
    exists|j: int| 0 <= j < ws.len() && #[trigger] patches(ws[j], q)
}

/// The serializer's state against its target `f`: the buffer and what the stack still
/// appends make up `f`, the buffer already holds `f` except in offset fields still to fill
/// in, and each of those will be filled with the distance to the subtree written after it.
spec fn ser_state_ok(buf: Seq<u8>, ws: Seq<Work>, f: Seq<u8>) -> bool {
    &&& buf.len() + work_rest(ws).len() == f.len()
    &&& f.subrange(buf.len() as int, f.len() as int) == work_rest(ws)
    &&& forall|q: int| 0 <= q < buf.len() && !pending_at(ws, q) ==> buf[q] == f[q]
    &&& forall|j: int| 0 <= j < ws.len() ==> match #[trigger] ws[j] {
        Work::PatchOffset(p) => p + 4 <= buf.len() && f.subrange(p as int, p + 4) == le_u32(
            (buf.len() + work_rest(ws.subrange(j + 1, ws.len() as int)).len() - p) as u32,
        ),
        Work::Serialize(n) => n.fanout_ok(),
    }
}

proof fn lemma_work_rest_concat(a: Seq<Work>, b: Seq<Work>)
    ensures
        work_rest(a + b) == work_rest(b) + work_rest(a),
    decreases b.len(),
{
    if b.len() == 0 {
        assert(a + b =~= a);
        assert(work_rest(b) + work_rest(a) =~= work_rest(a));
    } else {
        assert((a + b).drop_last() =~= a + b.drop_last());
        assert((a + b).last() == b.last());
        lemma_work_rest_concat(a, b.drop_last());
        assert(work_rest(a + b) =~= work_rest(b) + work_rest(a));
    }
}

/// Filling in the offset field on top of the stack keeps the invariant.
proof fn lemma_patch_step(buf: Seq<u8>, ws: Seq<Work>, f: Seq<u8>, p: usize)
    requires
        ser_state_ok(buf, ws, f),
        ws.len() > 0,
        ws.last() == Work::PatchOffset(p),
    ensures
        p + 4 <= buf.len(),
        ser_state_ok(
            buf.subrange(0, p as int) + le_u32((buf.len() - p) as u32) + buf.subrange(p + 4, buf.len() as int),
            ws.drop_last(),
            f,
        ),
{
    let n = ws.len() as int;
    let ws2 = ws.drop_last();
    let v = (buf.len() - p) as u32;
    let buf2 = buf.subrange(0, p as int) + le_u32(v) + buf.subrange(p + 4, buf.len() as int);
    assert(ws[n - 1] == Work::PatchOffset(p));
    assert(ws.subrange(n, n) =~= Seq::<Work>::empty());
    assert(f.subrange(p as int, p + 4) == le_u32(v));
    assert(work_rest(ws) == work_rest(ws2)) by {
        assert(work_out(ws.last()) =~= Seq::<u8>::empty());
        assert(work_rest(ws) =~= work_out(ws.last()) + work_rest(ws2));
    }
    assert(buf2.len() == buf.len());
    assert forall|q: int| 0 <= q < buf2.len() && !pending_at(ws2, q) implies buf2[q] == f[q] by {
        if p <= q < p + 4 {
            assert(buf2[q] == le_u32(v)[q - p]);
            assert(f[q] == f.subrange(p as int, p + 4)[q - p]);
        } else {
            assert(buf2[q] == buf[q]);
            if pending_at(ws, q) {
                let j = choose|j: int| 0 <= j < ws.len() && #[trigger] patches(ws[j], q);
                assert(j != n - 1);
                assert(ws2[j] == ws[j]);
                assert(patches(ws2[j], q));
            }
        }
    }
    assert forall|j: int| 0 <= j < ws2.len() implies match #[trigger] ws2[j] {
        Work::PatchOffset(p2) => p2 + 4 <= buf2.len() && f.subrange(p2 as int, p2 + 4) == le_u32(
            (buf2.len() + work_rest(ws2.subrange(j + 1, ws2.len() as int)).len() - p2) as u32,
        ),
        Work::Serialize(m) => m.fanout_ok(),
    } by {
        assert(ws2[j] == ws[j]);
        let above = ws.subrange(j + 1, n);
        let above2 = ws2.subrange(j + 1, n - 1);
        assert(above =~= above2.push(ws.last()));
        assert(above.drop_last() =~= above2);
        assert(work_rest(above) =~= work_out(ws.last()) + work_rest(above2));
        assert(work_out(ws.last()) =~= Seq::<u8>::empty());
    }
    assert(f.subrange(buf2.len() as int, f.len() as int) == work_rest(ws2));
}

} // verus!

verus! {

/// A node's child entries with every offset field still zero.
spec fn zero_entries(cs: Seq<(u8, Node)>) -> Seq<u8> {
    Seq::new((5 * cs.len()) as nat, |x: int| if x % 5 == 0 { cs[x / 5].0 } else { 0u8 })
}

/// Work item `x` of the items a node pushes for its children (entries starting at `start`):
/// from the bottom up, each child from the last to the first, followed by its offset field.
spec fn child_work_ok(w: Work, cs: Seq<(u8, Node)>, start: int, x: int) -> bool {
    let k = cs.len() - 1 - x / 2;
    if x % 2 == 0 {
        w matches Work::Serialize(m) && *m == cs[k].1
    } else {
        w == Work::PatchOffset((start + 5 * k + 1) as usize)
    }
}

/// `top` is exactly the work a node pushes for its children.
spec fn child_works(top: Seq<Work>, cs: Seq<(u8, Node)>, start: int) -> bool {
    &&& top.len() == 2 * cs.len()
    &&& forall|x: int| 0 <= x < top.len() ==> child_work_ok(#[trigger] top[x], cs, start, x)
}

proof fn lemma_child_works_rest(top: Seq<Work>, cs: Seq<(u8, Node)>, start: int, m: int)
    requires
        child_works(top, cs, start),
        0 <= m <= cs.len(),
    ensures
        work_rest(top.subrange(2 * (cs.len() - m), top.len() as int)) == concat_all(Node::sers(cs).take(m)),
    decreases m,
{
    let n = cs.len() as int;
    let sub = Node::sers(cs);
    lemma_sers(cs);
    if m == 0 {
        assert(top.subrange(2 * n, top.len() as int) =~= Seq::<Work>::empty());
        assert(sub.take(0) =~= Seq::<Seq<u8>>::empty());
    } else {
        lemma_child_works_rest(top, cs, start, m - 1);
        let lo = 2 * (n - m);
        let hi = lo + 2;
        let pair = top.subrange(lo, hi);
        let rest = top.subrange(hi, top.len() as int);
        assert(top.subrange(lo, top.len() as int) =~= pair + rest);
        lemma_work_rest_concat(pair, rest);
        assert(lo / 2 == n - m && lo % 2 == 0);
        assert((lo + 1) / 2 == n - m && (lo + 1) % 2 == 1);
        assert(child_work_ok(top[lo], cs, start, lo));
        assert(child_work_ok(top[lo + 1], cs, start, lo + 1));
        assert(pair.last() == top[lo + 1]);
        assert(pair.drop_last().last() == top[lo]);
        let p1 = pair.drop_last();
        assert(p1.drop_last() =~= Seq::<Work>::empty());
        assert(work_rest(p1.drop_last()) == Seq::<u8>::empty());
        assert(work_rest(p1) == work_out(p1.last()) + work_rest(p1.drop_last()));
        assert(work_rest(pair) == work_out(pair.last()) + work_rest(p1));
        assert(work_out(pair.last()) == Seq::<u8>::empty());
        assert(work_out(p1.last()) == cs[m - 1].1.ser());
        assert(work_rest(pair) =~= cs[m - 1].1.ser());
        lemma_concat_take_step(sub, m - 1);
    }
}

/// Writing the node on top of the stack (its header and its entries with zero offsets) and
/// replacing it by its children and their offset fields keeps the invariant.
#[verifier::spinoff_prover]
#[verifier::rlimit(80)]
proof fn lemma_serialize_step(buf: Seq<u8>, ws: Seq<Work>, f: Seq<u8>, node: Node, buf2: Seq<u8>, ws2: Seq<Work>)
    requires
        ser_state_ok(buf, ws, f),
        ws.len() > 0,
        ws.last() matches Work::Serialize(m) && *m == node,
        buf2 == buf + node_header(node) + zero_entries(node.children@),
        buf2.len() <= usize::MAX,
        ws2.len() >= ws.len() - 1,
        ws2.subrange(0, ws.len() - 1) == ws.drop_last(),
        child_works(ws2.subrange(ws.len() - 1, ws2.len() as int), node.children@, (buf.len() + node_header(node).len()) as int),
    ensures
        ser_state_ok(buf2, ws2, f),
{
    let cs = node.children@;
    let n = cs.len() as int;
    let sub = Node::sers(cs);
    let s = node.ser();
    let hd = node_header(node);
    let h = hd.len() as int;
    let b0 = buf.len() as int;
    let st = b0 + h;
    let base = ws.drop_last();
    let l = base.len() as int;
    let top = ws2.subrange(l, ws2.len() as int);
    assert(node.fanout_ok()) by {
        assert(ws[ws.len() - 1] == ws.last());
    }
    lemma_ser_layout(node);
    lemma_sers(cs);
    let all = concat_all(sub);
    assert(s == hd + entries_bytes(cs, sub) + all);
    // what the old stack still appends
    assert(work_rest(ws) == s + work_rest(base)) by {
        assert(work_out(ws.last()) == s);
    }
    // what the new stack still appends
    assert(ws2 =~= base + top);
    lemma_work_rest_concat(base, top);
    lemma_child_works_rest(top, cs, st, n);
    assert(top.subrange(0, top.len() as int) =~= top);
    assert(sub.take(n) =~= sub);
    assert(work_rest(ws2) == all + work_rest(base));
    assert(buf2.len() == b0 + h + 5 * n);
    // the target around the node
    assert(f.subrange(b0, f.len() as int) == s + work_rest(base));
    assert forall|t: int| 0 <= t < s.len() implies f[b0 + t] == #[trigger] s[t] by {
        assert(f[b0 + t] == f.subrange(b0, f.len() as int)[t]);
    }
    assert(f.subrange(buf2.len() as int, f.len() as int) =~= work_rest(ws2)) by {
        assert forall|t: int| 0 <= t < f.len() - buf2.len() implies #[trigger] f.subrange(buf2.len() as int, f.len() as int)[t] == work_rest(ws2)[t] by {
            assert(f.subrange(buf2.len() as int, f.len() as int)[t] == f.subrange(b0, f.len() as int)[h + 5 * n + t]);
            if t < all.len() {
                assert((s + work_rest(base))[h + 5 * n + t] == s[h + 5 * n + t]);
                assert(s[h + 5 * n + t] == all[t]);
            } else {
                assert((s + work_rest(base))[h + 5 * n + t] == work_rest(base)[t - all.len()]);
            }
        }
    }
    // bytes already written agree with the target outside pending fields
    assert forall|q: int| 0 <= q < buf2.len() && !pending_at(ws2, q) implies buf2[q] == f[q] by {
        if q < b0 {
            assert(buf2[q] == buf[q]);
            if pending_at(ws, q) {
                let j = choose|j: int| 0 <= j < ws.len() && #[trigger] patches(ws[j], q);
                assert(j != ws.len() - 1);
                assert(ws2[j] == ws[j]) by {
                    assert(ws2.subrange(0, l)[j] == ws.drop_last()[j]);
                }
                assert(patches(ws2[j], q));
            }
        } else if q < st {
            assert(buf2[q] == hd[q - b0]);
            assert(s[q - b0] == hd[q - b0]);
        } else {
            let t = q - st;
            let k = t / 5;
            let r = t % 5;
            assert(t == 5 * k + r);
            assert(buf2[q] == zero_entries(cs)[t]);
            lemma_ser_entry(node, k);
            if r == 0 {
                assert(s[h + 5 * k] == cs[k].0);
            } else {
                let x = 2 * (n - 1 - k) + 1;
                assert(x / 2 == n - 1 - k && x % 2 == 1);
                assert(child_work_ok(top[x], cs, st, x));
                assert(ws2[l + x] == top[x]);
                assert(patches(ws2[l + x], q));
                assert(false);
            }
        }
    }
    // each work item of the new stack
    assert forall|j: int| 0 <= j < ws2.len() implies match #[trigger] ws2[j] {
        Work::PatchOffset(p) => p + 4 <= buf2.len() && f.subrange(p as int, p + 4) == le_u32(
            (buf2.len() + work_rest(ws2.subrange(j + 1, ws2.len() as int)).len() - p) as u32,
        ),
        Work::Serialize(m) => m.fanout_ok(),
    } by {
        if j < l {
            assert(ws2[j] == ws[j]) by {
                assert(ws2.subrange(0, l)[j] == ws.drop_last()[j]);
            }
            let old_above = ws.subrange(j + 1, ws.len() as int);
            let new_above = ws2.subrange(j + 1, ws2.len() as int);
            let mid = base.subrange(j + 1, l);
            assert(old_above =~= mid.push(ws.last()));
            assert(old_above.drop_last() =~= mid);
            assert(work_rest(old_above) == s + work_rest(mid));
            assert(new_above =~= mid + top);
            lemma_work_rest_concat(mid, top);
        } else {
            let x = j - l;
            let k = n - 1 - x / 2;
            assert(top[x] == ws2[j]);
            assert(child_work_ok(top[x], cs, st, x));
            if x % 2 == 0 {
                assert(cs[k].1.fanout_ok());
            } else {
                assert(x == 2 * (n - 1 - k) + 1);
                lemma_child_works_rest(top, cs, st, k);
                assert(ws2.subrange(j + 1, ws2.len() as int) =~= top.subrange(2 * (n - k), top.len() as int));
                lemma_ser_entry(node, k);
                let p = st + 5 * k + 1;
                assert(f.subrange(p, p + 4) =~= s.subrange(h + 5 * k + 1, h + 5 * k + 5)) by {
                    assert forall|t: int| 0 <= t < 4 implies #[trigger] f.subrange(p, p + 4)[t] == s.subrange(h + 5 * k + 1, h + 5 * k + 5)[t] by {
                        assert(f[b0 + (h + 5 * k + 1 + t)] == s[h + 5 * k + 1 + t]);
                    }
                }
            }
        }
    }
}

/// Writes `node`'s flag byte, its bitmap if it is terminal and its child entries with zero
/// offsets, then pushes for each child, from the last to the first, the child and the offset
/// field of its entry.
#[verifier::spinoff_prover]
fn write_node<'a>(node: &'a Node, buf: &mut Vec<u8>, stack: &mut Vec<Work<'a>>)
    requires
        node.children@.len() <= 127,
    ensures
        final(buf)@ == old(buf)@ + node_header(*node) + zero_entries(node.children@),
        final(stack)@.len() == old(stack)@.len() + 2 * node.children@.len(),
        final(stack)@.subrange(0, old(stack)@.len() as int) == old(stack)@,
        child_works(
            final(stack)@.subrange(old(stack)@.len() as int, final(stack)@.len() as int),
            node.children@,
            (old(buf)@.len() + node_header(*node).len()) as int,
        ),
{
    let ghost cs = node.children@;
    let ghost hd = node_header(*node);
    let n = node.children.len();
    let mut flags: u8 = (n as u8) * 2;
    if node.is_terminal {
        flags = flags + 1;
    }
    buf.push(flags);
    if node.is_terminal {
        push_le_u32(buf, node.category_bitmap);
    }
    assert(buf@ == old(buf)@ + hd);
    let start = buf.len();
    let mut i: usize = 0;
    while i < n
        invariant
            n == cs.len(),
            n <= 127,
            cs == node.children@,
            i <= n,
            start == old(buf)@.len() + hd.len(),
            buf.len() == start + 5 * i,
            buf@.subrange(0, start as int) == old(buf)@ + hd,
            forall|j: int| 0 <= j < i ==> #[trigger] buf@[start + 5 * j] == cs[j].0,
            forall|j: int, r: int| 0 <= j < i && 1 <= r < 5 ==> #[trigger] buf@[start + 5 * j + r] == 0,
        decreases n - i,
    {
        buf.push(node.children[i].0);
        push_le_u32(buf, 0);
        proof {
            lemma_le_u32_zero();
        }
        i = i + 1;
    }
    assert(buf@ =~= old(buf)@ + hd + zero_entries(cs)) by {
        let z = zero_entries(cs);
        assert forall|x: int| 0 <= x < z.len() implies #[trigger] buf@[start + x] == z[x] by {
            let j = x / 5;
            let r = x % 5;
            assert(x == 5 * j + r);
            if r == 0 {
                assert(buf@[start + 5 * j] == cs[j].0);
            } else {
                assert(buf@[start + 5 * j + r] == 0);
            }
        }
        assert forall|x: int| 0 <= x < buf@.len() implies buf@[x] == (old(buf)@ + hd + z)[x] by {
            if x < start {
                assert(buf@[x] == buf@.subrange(0, start as int)[x]);
            } else {
                assert(buf@[start + (x - start)] == z[x - start]);
            }
        }
    }
    let l = stack.len();
    let ghost base = stack@;
    let mut idx: usize = n;
    while idx > 0
        invariant
            n == cs.len(),
            n <= 127,
            cs == node.children@,
            idx <= n,
            start == old(buf)@.len() + hd.len(),
            buf.len() == start + 5 * n,
            l == base.len(),
            stack@.len() == l + 2 * (n - idx),
            stack@.subrange(0, l as int) == base,
            forall|x: int| 0 <= x < 2 * (n - idx) ==> child_work_ok(#[trigger] stack@[l + x], cs, start as int, x),
        decreases idx,
    {
        idx = idx - 1;
        let offset_pos = start + idx * 5 + 1;
        stack.push(Work::Serialize(&node.children[idx].1));
        stack.push(Work::PatchOffset(offset_pos));
        proof {
            let x0 = 2 * (n - idx) - 2;
            assert(x0 / 2 == n - 1 - idx && x0 % 2 == 0);
            assert((x0 + 1) / 2 == n - 1 - idx && (x0 + 1) % 2 == 1);
            assert(stack@[l + x0] == Work::Serialize(&node.children@[idx as int].1));
            assert(child_work_ok(stack@[l + x0], cs, start as int, x0));
            assert(child_work_ok(stack@[l + (x0 + 1)], cs, start as int, x0 + 1));
            assert(stack@.subrange(0, l as int) =~= base);
        }
    }
    let ghost top = stack@.subrange(l as int, stack@.len() as int);
    assert forall|x: int| 0 <= x < top.len() implies child_work_ok(#[trigger] top[x], cs, start as int, x) by {
        assert(top[x] == stack@[l + x]);
    }
}

/// Appends the serialization of `root` to `buf`, depth first with an explicit stack: each
/// child offset is filled in just before the child's bytes are written.
#[verifier::spinoff_prover]
#[verifier::rlimit(30)]
fn serialize_iterative(root: &Node, buf: &mut Vec<u8>)
    requires
        root.fanout_ok(),
    ensures
        final(buf)@ == old(buf)@ + root.ser(),
{
    let ghost b_init = buf@;
    let ghost f = buf@ + root.ser();
    let mut stack: Vec<Work> = Vec::new();
    stack.push(Work::Serialize(root));
    proof {
        let ws = stack@;
        assert(ws.drop_last() =~= Seq::<Work>::empty());
        assert(work_rest(ws.drop_last()) =~= Seq::<u8>::empty());
        assert(work_rest(ws) =~= root.ser());
        assert forall|q: int| 0 <= q < buf@.len() && !pending_at(ws, q) implies buf@[q] == f[q] by {}
        assert(f.subrange(buf@.len() as int, f.len() as int) =~= work_rest(ws));
    }
    while stack.len() > 0
        invariant
            f == b_init + root.ser(),
            ser_state_ok(buf@, stack@, f),
        decreases f.len() - buf@.len(), stack@.len(),
    {
        let ghost ws = stack@;
        let ghost bb = buf@;
        match stack.pop() {
            Some(Work::PatchOffset(offset_pos)) => {
                proof {
                    lemma_patch_step(bb, ws, f, offset_pos);
                }
                let relative_offset = (buf.len() - offset_pos) as u32;
                set_le_u32(buf, offset_pos, relative_offset);
            },
            Some(Work::Serialize(node)) => {
                proof {
                    assert(ws[ws.len() - 1] == ws.last());
                }
                write_node(node, buf, &mut stack);
                let written: usize = buf.len();
                proof {
                    assert(buf@.len() == written as int);
                    lemma_serialize_step(bb, ws, f, *node, buf@, stack@);
                }
            },
            None => {},
        }
    }
    proof {
        assert(work_rest(stack@) =~= Seq::<u8>::empty());
        assert forall|q: int| 0 <= q < buf@.len() implies buf@[q] == f[q] by {
            assert(!pending_at(stack@, q));
        }
        assert(buf@ =~= f);
    }
}

impl Trie {
    /// Appends the serialized trie to `buf`.
    pub fn serialize(&self, buf: &mut Vec<u8>)
        requires
            self.root.fanout_ok(),
        ensures
            final(buf)@ == old(buf)@ + self.root.ser(),
    {
        serialize_iterative(&self.root, buf);
    }
}

} // verus!

verus! {

/// The bytes of a serialized node (at most 127 children, at most 2^32 - 1 bytes in all): the
/// flag byte is twice the number of children, plus 1 when the node is terminal; a terminal
/// node's bitmap follows as four little-endian bytes; then child entry `i` holds the child's
/// edge byte and a four-byte little-endian offset that, counted from the offset field itself,
/// lands on the child's own serialization.
pub proof fn lemma_node_bytes(node: Node, i: int)
    requires
        node.children@.len() <= 127,
        node.ser().len() <= u32::MAX,
        0 <= i < node.children@.len(),
    ensures
        ({
            let s = node.ser();
            let cs = node.children@;
            let h: int = if node.is_terminal { 5 } else { 1 };
            let p = h + 5 * i + 1;
            let c = p + le_value(s, p, 4);
            &&& s[0] as int == 2 * cs.len() + (if node.is_terminal { 1int } else { 0int })
            &&& node.is_terminal ==> le_value(s, 1, 4) == node.category_bitmap
            &&& s[h + 5 * i] == cs[i].0
            &&& 0 <= c && c + cs[i].1.ser().len() <= s.len()
            &&& s.subrange(c, c + cs[i].1.ser().len()) == cs[i].1.ser()
        }),
{
    let s = node.ser();
    let cs = node.children@;
    let n = cs.len() as int;
    let sub = Node::sers(cs);
    let hd = node_header(node);
    let h = hd.len() as int;
    lemma_ser_layout(node);
    lemma_ser_entry(node, i);
    lemma_ser_child(node, i);
    lemma_sers(cs);
    assert(s[0] == hd[0]);
    assert(hd[0] == (2 * n + (if node.is_terminal { 1int } else { 0int })) as u8);
    if node.is_terminal {
        assert(s.subrange(1, 5) == le_u32(node.category_bitmap));
        lemma_le_value_u32(s, 1, node.category_bitmap);
    }
    let p = h + 5 * i + 1;
    let off = child_offset(cs, sub, i);
    lemma_le_value_u32(s, p, off);
    let ct = concat_all(sub.take(i));
    lemma_concat_prefix(sub, i);
    let dist = 5 * (n - i) - 1 + ct.len();
    assert(h + 5 * n + ct.len() + cs[i].1.ser().len() <= s.len());
    assert(0 <= dist <= u32::MAX);
    assert(off == dist);
}

} // verus!
