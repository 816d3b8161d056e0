//! Step-by-step access to a tree, for decoders that pull one element,
//! entry or variant at a time: the elements of a sequence, the entries of a
//! record or map, and the variant a union's scalar names.
use vstd::prelude::*;
use crate::de::{fail, sequence_items, sequence_items_of, tuple_items, tuple_items_of};
use crate::error::{Error, ErrorKind};
use crate::text::{eq_ignore_ascii_case, text_eq_ignore_ascii_case, texts};
use crate::value::{leaf, tree_get, Node, Tree};

verus! {

pub open spec fn is_name_at(names: Seq<Seq<char>>, text: Seq<char>, i: int) -> bool {
    &&& 0 <= i < names.len()
    &&& eq_ignore_ascii_case(text, names[i])
    &&& forall|j: int| 0 <= j < i ==> !eq_ignore_ascii_case(text, #[trigger] names[j])
}

/// The first of `names` equal to `text` up to ASCII case, or -1.
pub open spec fn name_index(names: Seq<Seq<char>>, text: Seq<char>) -> int {
    if exists|i: int| is_name_at(names, text, i) {
        choose|i: int| is_name_at(names, text, i)
    } else {
        -1
    }
}

fn find_name(names: &Vec<String>, text: &str) -> (r: Option<usize>)
    ensures
        match r {
            Some(i) => name_index(texts(names@), text@) == i && i < names@.len(),
            None => name_index(texts(names@), text@) == -1,
        },
{
    let ghost ns = texts(names@);
    let n = names.len();
    let mut i: usize = 0;
    while i < n
        invariant
            n == names@.len(),
            ns == texts(names@),
            0 <= i <= n,
            forall|j: int| 0 <= j < i ==> !eq_ignore_ascii_case(text@, #[trigger] ns[j]),
        decreases n - i,
    {
        assert(ns[i as int] == names@[i as int]@);
        if text_eq_ignore_ascii_case(text, names[i].as_str()) {
            proof {
                let m = choose|m: int| is_name_at(ns, text@, m);
                assert(is_name_at(ns, text@, i as int));
                if m < i {
                    assert(!eq_ignore_ascii_case(text@, ns[m]));
                }
                if i < m {
                    assert(!eq_ignore_ascii_case(text@, ns[i as int]));
                }
            }
            return Some(i);
        }
        i += 1;
    }
    None
}

/// The elements of the sequence at `node`: its scalar split at commas,
/// trimmed, without the empty ones.
pub fn sequence_elements(node: &Node) -> (r: Vec<String>)
    ensures
        texts(r@) == sequence_items(node@.scalar),
{
    sequence_items_of(node.value())
}

/// The elements of the tuple at `node`: its scalar split at commas and
/// trimmed, empty ones kept.
pub fn tuple_elements(node: &Node) -> (r: Vec<String>)
    ensures
        texts(r@) == tuple_items(node@.scalar),
{
    tuple_items_of(node.value())
}

/// The key of a record, map or union entry.
#[derive(Debug)]
pub struct KeyDeserializer {
    key: String,
}

impl View for KeyDeserializer {
    type V = Seq<char>;

    closed spec fn view(&self) -> Seq<char> {
        self.key@
    }
}

impl KeyDeserializer {
    pub fn new(key: String) -> (r: Self)
        ensures
            r@ == key@,
    {
        KeyDeserializer { key }
    }

    /// The key text as it stands.
    pub fn deserialize_string(self) -> (r: String)
        ensures
            r@ == self@,
    {
        self.key
    }

    /// The declared name among `variants` that the key names, ignoring
    /// ASCII case.
    pub fn deserialize_enum(&self, variants: &Vec<String>) -> (r: Result<String, Error>)
        ensures
            match r {
                Ok(n) => 0 <= name_index(texts(variants@), self@) && n@ == texts(variants@)[name_index(
                    texts(variants@),
                    self@,
                )],
                Err(e) => name_index(texts(variants@), self@) == -1 && e@ == fail(
                    ErrorKind::MissingVariant,
                    self@,
                ),
            },
    {
        match find_name(variants, self.key.as_str()) {
            Some(i) => Ok(variants[i].clone()),
            None => Err(Error::new(ErrorKind::MissingVariant, self.key.clone())),
        }
    }
}

/// The elements of a sequence, each handed out as a leaf node.
#[derive(Debug)]
pub struct SeqAccessor {
    elements: Vec<String>,
    next: usize,
}

impl View for SeqAccessor {
    type V = Seq<Seq<char>>;

    /// The elements not handed out yet.
    closed spec fn view(&self) -> Seq<Seq<char>> {
        if self.next <= self.elements@.len() {
            texts(self.elements@).skip(self.next as int)
        } else {
            Seq::empty()
        }
    }
}

impl SeqAccessor {
    pub fn new(keys: Vec<String>) -> (r: Self)
        ensures
            r@ == texts(keys@),
    {
        let r = SeqAccessor { elements: keys, next: 0 };
        assert(r@ =~= texts(r.elements@));
        r
    }

    /// The next element, as a node holding it and no children.
    pub fn next_element(&mut self) -> (r: Option<Node>)
        ensures
            match r {
                Some(n) => old(self)@.len() > 0 && n@ == leaf(old(self)@[0]) && final(self)@ == old(
                    self,
                )@.drop_first(),
                None => old(self)@.len() == 0 && final(self)@ == old(self)@,
            },
    {
        if self.next >= self.elements.len() {
            return None;
        }
        let n = Node::new(self.elements[self.next].as_str());
        proof {
            assert(old(self)@[0] == self.elements@[self.next as int]@);
            assert(texts(self.elements@).skip(self.next + 1) =~= old(self)@.drop_first());
        }
        self.next = self.next + 1;
        Some(n)
    }
}

/// Whether `ks[j]` is the first of `ks` found in `t`.
pub open spec fn first_found_at(t: Tree, ks: Seq<Seq<char>>, j: int) -> bool {
    &&& 0 <= j < ks.len()
    &&& tree_get(t, ks[j]) is Some
    &&& forall|m: int| 0 <= m < j ==> tree_get(t, #[trigger] ks[m]) is None
}

/// The entries of a record or map: candidate keys, each looked up in one
/// node; keys with no node there are skipped.
#[derive(Debug)]
pub struct MapAccessor {
    keys: Vec<String>,
    next: usize,
    node: Node,
}

impl MapAccessor {
    /// The candidate keys not tried yet.
    pub closed spec fn pending(&self) -> Seq<Seq<char>> {
        if self.next <= self.keys@.len() {
            texts(self.keys@).skip(self.next as int)
        } else {
            Seq::empty()
        }
    }

    /// The node the keys are looked up in.
    pub closed spec fn tree(&self) -> Tree {
        self.node@
    }

    pub fn new(keys: Vec<String>, node: Node) -> (r: Self)
        ensures
            r.pending() == texts(keys@),
            r.tree() == node@,
    {
        let r = MapAccessor { keys, next: 0, node };
        assert(r.pending() =~= texts(r.keys@));
        r
    }

    /// The next candidate key found in the node, with a copy of the node
    /// found under it.
    pub fn next_entry(&mut self) -> (r: Option<(String, Node)>)
        ensures
            final(self).tree() == old(self).tree(),
            match r {
                Some((k, n)) => exists|j: int|
                    first_found_at(old(self).tree(), old(self).pending(), j) && k@ == old(self).pending()[j]
                        && tree_get(old(self).tree(), k@) == Some(n@) && final(self).pending()
                        == old(self).pending().skip(j + 1),
                None => final(self).pending().len() == 0 && forall|m: int|
                    0 <= m < old(self).pending().len() ==> tree_get(
                        old(self).tree(),
                        #[trigger] old(self).pending()[m],
                    ) is None,
            },
    {
        if self.next > self.keys.len() {
            self.next = self.keys.len();
        }
        let ghost start = self.next as int;
        let ghost ks = old(self).pending();
        proof {
            assert(ks =~= texts(self.keys@).skip(start));
        }
        while self.next < self.keys.len()
            invariant
                start <= self.next <= self.keys@.len(),
                0 <= start,
                ks == texts(self.keys@).skip(start),
                ks == old(self).pending(),
                self.tree() == old(self).tree(),
                self.keys@ == old(self).keys@,
                forall|m: int| 0 <= m < self.next - start ==> tree_get(self.tree(), #[trigger] ks[m]) is None,
            decreases self.keys@.len() - self.next,
        {
            let i = self.next;
            proof {
                assert(ks[i - start] == self.keys@[i as int]@);
            }
            match self.node.get(self.keys[i].as_str()) {
                Some(found) => {
                    let copy = found.duplicate();
                    let key = self.keys[i].clone();
                    self.next = i + 1;
                    proof {
                        let j = i - start;
                        assert(first_found_at(old(self).tree(), ks, j));
                        assert(self.pending() =~= ks.skip(j + 1));
                        assert(key@ == ks[j]);
                    }
                    return Some((key, copy));
                },
                None => {
                    self.next = i + 1;
                },
            }
        }
        proof {
            assert(self.pending().len() == 0);
        }
        None
    }
}

/// The variants of a union, matched against the scalar of one node.
#[derive(Debug)]
pub struct EnumAccessor {
    keys: Vec<String>,
    node: Node,
}

impl EnumAccessor {
    /// The declared variant names.
    pub closed spec fn names(&self) -> Seq<Seq<char>> {
        texts(self.keys@)
    }

    /// The node whose scalar names the variant.
    pub closed spec fn tree(&self) -> Tree {
        self.node@
    }

    pub fn new(keys: Vec<String>, node: Node) -> (r: Self)
        ensures
            r.names() == texts(keys@),
            r.tree() == node@,
    {
        EnumAccessor { keys, node }
    }

    /// The declared name of the variant that the node's scalar names,
    /// ignoring ASCII case, and access to its payload (the same node).
    pub fn variant_seed(self) -> (r: Result<(String, VariantAccessor), Error>)
        ensures
            match r {
                Ok((n, va)) => 0 <= name_index(self.names(), self.tree().scalar) && n@ == self.names()[name_index(
                    self.names(),
                    self.tree().scalar,
                )] && va@ == self.tree(),
                Err(e) => name_index(self.names(), self.tree().scalar) == -1 && e@ == fail(
                    ErrorKind::MissingVariant,
                    self.tree().scalar,
                ),
            },
    {
        match find_name(&self.keys, self.node.value()) {
            Some(i) => {
                let name = self.keys[i].clone();
                Ok((name, VariantAccessor::new(self.node)))
            },
            None => Err(Error::new(ErrorKind::MissingVariant, String::from_str(self.node.value()))),
        }
    }
}

/// The payload of a selected variant: the node whose scalar named it.
#[derive(Debug)]
pub struct VariantAccessor {
    node: Node,
}

impl View for VariantAccessor {
    type V = Tree;

    closed spec fn view(&self) -> Tree {
        self.node@
    }
}

impl VariantAccessor {
    pub fn new(node: Node) -> (r: Self)
        ensures
            r@ == node@,
    {
        VariantAccessor { node }
    }

    /// A unit variant: the node must have no children.
    pub fn unit_variant(&self) -> (r: Result<(), Error>)
        ensures
            r is Ok <==> self@.children.len() == 0,
            r matches Err(e) ==> e@ == fail(ErrorKind::NotUnitVariant, self@.scalar),
    {
        if self.node.has_children() {
            Err(Error::new(ErrorKind::NotUnitVariant, String::from_str(self.node.value())))
        } else {
            Ok(())
        }
    }

    /// A newtype variant: its payload is decoded from the same node.
    pub fn newtype_variant(self) -> (r: Node)
        ensures
            r@ == self@,
    {
        self.node
    }

    /// A tuple variant, which is not supported.
    pub fn tuple_variant(&self) -> (r: Error)
        ensures
            r@ == fail(ErrorKind::Unsupported, self@.scalar),
    {
        Error::new(ErrorKind::Unsupported, String::from_str(self.node.value()))
    }

    /// A struct variant: its fields are looked up in the same node.
    pub fn struct_variant(self, fields: Vec<String>) -> (r: MapAccessor)
        ensures
            r.pending() == texts(fields@),
            r.tree() == self@,
    {
        MapAccessor::new(fields, self.node)
    }
}

} // verus!
