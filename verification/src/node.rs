use vstd::prelude::*;

verus! {

/// What a value stands for: a text, or the children of a nested node.
pub enum ValueView {
    /// A raw text
    Text(Seq<char>),
    /// The children of a nested node, by identifier
    Node(Map<Seq<char>, ValueView>),
}

/// What a node stands for: its children, by identifier.
pub type NodeView = Map<Seq<char>, ValueView>;

/// Represents the value of a ConfigNode key
#[derive(Debug)]
pub enum ConfigNodeValue {
    /// Any value that is not a new node. Numbers, lists, and other types of values are not
    /// parsed and are represented in their textual form as this type.
    Text(String),
    /// A new node
    Node(ConfigNode),
}

/// Represents a node in the ConfigNode tree
///
/// A node maps identifiers to values. No identifier occurs twice, and the order of the
/// children has no meaning: two nodes are equal when they map the same identifiers to
/// equal values.
#[derive(Debug)]
pub struct ConfigNode {
    /// All the direct children of this node, each identifier once
    entries: Vec<(String, ConfigNodeValue)>,
}

/// The mapping that a list of entries stands for.
spec fn entries_view(entries: Seq<(String, ConfigNodeValue)>) -> NodeView
    decreases entries,
{
    if entries.len() == 0 {
        Map::empty()
    } else {
        entries_view(entries.drop_last()).insert(entries.last().0@, entries.last().1.view())
    }
}

/// Whether no two entries have the same identifier
spec fn distinct_keys(entries: Seq<(String, ConfigNodeValue)>) -> bool {
    forall|i: int, j: int| 0 <= i < j < entries.len() ==> entries[i].0@ != entries[j].0@
}

impl ConfigNodeValue {
    /// The text or the children that this value stands for
    pub open spec fn view(&self) -> ValueView
        decreases self,
    {
        match self {
            ConfigNodeValue::Text(text) => ValueView::Text(text@),
            ConfigNodeValue::Node(node) => ValueView::Node(node.view()),
        }
    }

    /// Returns a reference to the inner string of the `ConfigNodeValue` enum if `self` is of
    /// type [`ConfigNodeValue::Text`], otherwise `None`.
    pub fn as_text(&self) -> (text: Option<&str>)
        ensures
            match self {
                ConfigNodeValue::Text(inner) => text matches Some(t) && t@ == inner@,
                ConfigNodeValue::Node(_) => text is None,
            },
    {
        match self {
            ConfigNodeValue::Text(x) => Some(x.as_str()),
            ConfigNodeValue::Node(_) => None,
        }
    }

    /// Returns a reference to the inner `ConfigNode` of the `ConfigNodeValue` enum if `self`
    /// is of type [`ConfigNodeValue::Node`], otherwise `None`.
    pub fn as_node(&self) -> (node: Option<&ConfigNode>)
        ensures
            match self {
                ConfigNodeValue::Text(_) => node is None,
                ConfigNodeValue::Node(inner) => node == Some(inner),
            },
    {
        match self {
            ConfigNodeValue::Text(_) => None,
            ConfigNodeValue::Node(x) => Some(x),
        }
    }

    /// A copy of the value
    fn duplicate(&self) -> (copy: ConfigNodeValue)
        ensures
            copy@ == self@,
        decreases self,
    {
        match self {
            ConfigNodeValue::Text(text) => ConfigNodeValue::Text(text.clone()),
            ConfigNodeValue::Node(node) => ConfigNodeValue::Node(node.duplicate()),
        }
    }

    /// Whether the two values stand for the same text or the same children
    fn same(&self, other: &ConfigNodeValue) -> (equal: bool)
        ensures
            equal == (self@ == other@),
        decreases self,
    {
        match self {
            ConfigNodeValue::Text(text) => match other {
                ConfigNodeValue::Text(other_text) => *text == *other_text,
                ConfigNodeValue::Node(_) => false,
            },
            ConfigNodeValue::Node(node) => match other {
                ConfigNodeValue::Text(_) => false,
                ConfigNodeValue::Node(other_node) => node.same(other_node),
            },
        }
    }
}

impl ConfigNode {
    /// The children of this node, by identifier
    pub closed spec fn view(&self) -> NodeView
        decreases self,
    {
        entries_view(self.entries@)
    }

    #[verifier::type_invariant]
    spec fn well_formed(&self) -> bool {
        distinct_keys(self.entries@)
    }

    /// A node without children
    pub fn new() -> (node: ConfigNode)
        ensures
            node@ == Map::<Seq<char>, ValueView>::empty(),
    {
        ConfigNode { entries: Vec::new() }
    }

    /// The number of children
    pub fn len(&self) -> (n: usize)
        ensures
            self@.dom().finite(),
            n == self@.dom().len(),
    {
        proof {
            use_type_invariant(self);
            lemma_entries_view_len(self.entries@);
        }
        self.entries.len()
    }

    /// Whether the node has no children
    pub fn is_empty(&self) -> (empty: bool)
        ensures
            empty <==> self@ == Map::<Seq<char>, ValueView>::empty(),
    {
        proof {
            use_type_invariant(self);
            if self.entries.len() != 0 {
                lemma_entries_view_at(self.entries@, 0);
            }
        }
        self.entries.len() == 0
    }

    /// Whether the node has a child with the given identifier
    pub fn contains_key(&self, key: &str) -> (found: bool)
        ensures
            found <==> self@.contains_key(key@),
    {
        self.get(key).is_some()
    }

    /// The value of the child with the given identifier
    pub fn get(&self, key: &str) -> (value: Option<&ConfigNodeValue>)
        ensures
            match value {
                Some(v) => self@.contains_key(key@) && self@[key@] == v@,
                None => !self@.contains_key(key@),
            },
    {
        let owned = key.to_owned();
        proof {
            use_type_invariant(self);
            lemma_entries_view_contains(self.entries@, key@);
        }
        match self.position(&owned) {
            Some(i) => {
                proof {
                    lemma_entries_view_at(self.entries@, i as int);
                }
                Some(&self.entries[i].1)
            },
            None => None,
        }
    }

    /// Puts a child under the given identifier. A child that was there before is replaced.
    pub fn insert(&mut self, key: String, value: ConfigNodeValue)
        ensures
            final(self)@ == old(self)@.insert(key@, value@),
    {
        proof {
            use_type_invariant(&*self);
        }
        let found = self.position(&key);
        let mut entries = Vec::new();
        std::mem::swap(&mut entries, &mut self.entries);
        match found {
            Some(i) => {
                proof {
                    lemma_entries_view_update(entries@, i as int, (key, value));
                }
                entries.set(i, (key, value));
            },
            None => {
                proof {
                    lemma_entries_view_push(entries@, (key, value));
                }
                entries.push((key, value));
            },
        }
        self.entries = entries;
    }

    /// The identifiers of the children, each once, in no particular order
    pub fn keys(&self) -> (keys: Vec<String>)
        ensures
            self@.dom().finite(),
            keys.len() == self@.dom().len(),
            forall|i: int, j: int| 0 <= i < j < keys.len() ==> keys[i]@ != keys[j]@,
            forall|key: Seq<char>|
                self@.contains_key(key) <==> exists|i: int|
                    0 <= i < keys.len() && keys[i]@ == key,
    {
        proof {
            use_type_invariant(self);
            lemma_entries_view_len(self.entries@);
        }
        let mut keys: Vec<String> = Vec::new();
        let mut i: usize = 0;
        while i < self.entries.len()
            invariant
                i <= self.entries.len(),
                keys.len() == i,
                forall|j: int| 0 <= j < i ==> keys[j]@ == self.entries[j].0@,
            decreases self.entries.len() - i,
        {
            keys.push(self.entries[i].0.clone());
            i += 1;
        }
        proof {
            assert forall|key: Seq<char>|
                self@.contains_key(key) <==> exists|i: int|
                    0 <= i < keys.len() && keys[i]@ == key by {
                lemma_entries_view_contains(self.entries@, key);
                if self@.contains_key(key) {
                    let i = choose|i: int|
                        0 <= i < self.entries.len() && self.entries[i].0@ == key;
                    assert(keys[i]@ == key);
                }
                if exists|i: int| 0 <= i < keys.len() && keys[i]@ == key {
                    let i = choose|i: int| 0 <= i < keys.len() && keys[i]@ == key;
                    assert(self.entries[i].0@ == key);
                }
            }
        }
        keys
    }

    /// The index of the entry with the given identifier
    fn position(&self, key: &String) -> (found: Option<usize>)
        ensures
            match found {
                Some(i) => i < self.entries.len() && self.entries[i as int].0@ == key@,
                None => forall|i: int| 0 <= i < self.entries.len() ==> self.entries[i].0@ != key@,
            },
    {
        let mut i: usize = 0;
        while i < self.entries.len()
            invariant
                i <= self.entries.len(),
                forall|j: int| 0 <= j < i ==> self.entries[j].0@ != key@,
            decreases self.entries.len() - i,
        {
            if self.entries[i].0 == *key {
                return Some(i);
            }
            i += 1;
        }
        None
    }

    /// A copy of the node and of all that it holds
    fn duplicate(&self) -> (copy: ConfigNode)
        ensures
            copy@ == self@,
        decreases self,
    {
        proof {
            use_type_invariant(self);
        }
        let mut entries: Vec<(String, ConfigNodeValue)> = Vec::new();
        let mut i: usize = 0;
        while i < self.entries.len()
            invariant
                i <= self.entries.len(),
                entries.len() == i,
                forall|j: int|
                    0 <= j < i ==> entries[j].0@ == self.entries[j].0@ && entries[j].1@
                        == self.entries[j].1@,
            decreases self.entries.len() - i,
        {
            let key = self.entries[i].0.clone();
            let value = self.entries[i].1.duplicate();
            entries.push((key, value));
            i += 1;
        }
        proof {
            lemma_entries_view_same(entries@, self.entries@);
        }
        ConfigNode { entries }
    }

    /// Whether the two nodes have the same children
    fn same(&self, other: &ConfigNode) -> (equal: bool)
        ensures
            equal == (self@ == other@),
        decreases self,
    {
        proof {
            use_type_invariant(self);
            use_type_invariant(other);
            lemma_entries_view_len(self.entries@);
            lemma_entries_view_len(other.entries@);
        }
        if self.entries.len() != other.entries.len() {
            return false;
        }
        let mut i: usize = 0;
        while i < self.entries.len()
            invariant
                i <= self.entries.len(),
                distinct_keys(self.entries@),
                distinct_keys(other.entries@),
                forall|j: int|
                    0 <= j < i ==> other@.contains_key(#[trigger] self.entries[j].0@)
                        && other@[self.entries[j].0@] == self.entries[j].1@,
            decreases self.entries.len() - i,
        {
            proof {
                lemma_entries_view_at(self.entries@, i as int);
                lemma_entries_view_contains(other.entries@, self.entries[i as int].0@);
            }
            match other.position(&self.entries[i].0) {
                None => {
                    return false;
                },
                Some(j) => {
                    proof {
                        lemma_entries_view_at(other.entries@, j as int);
                    }
                    if !self.entries[i].1.same(&other.entries[j].1) {
                        return false;
                    }
                },
            }
            i += 1;
        }
        proof {
            assert forall|key: Seq<char>| #[trigger]
                self@.dom().contains(key) implies other@.dom().contains(key) && self@[key]
                == other@[key] by {
                lemma_entries_view_contains(self.entries@, key);
                let j = choose|j: int| 0 <= j < self.entries.len() && self.entries[j].0@ == key;
                lemma_entries_view_at(self.entries@, j);
            }
            assert(self@.dom().subset_of(other@.dom()));
            vstd::set_lib::lemma_subset_equality(self@.dom(), other@.dom());
            assert(self@ =~= other@);
        }
        true
    }
}

impl Clone for ConfigNodeValue {
    fn clone(&self) -> (copy: ConfigNodeValue)
        ensures
            copy@ == self@,
    {
        self.duplicate()
    }
}

impl Clone for ConfigNode {
    fn clone(&self) -> (copy: ConfigNode)
        ensures
            copy@ == self@,
    {
        self.duplicate()
    }
}

impl PartialEq for ConfigNodeValue {
    fn eq(&self, other: &ConfigNodeValue) -> (equal: bool) {
        self.same(other)
    }
}

impl Eq for ConfigNodeValue {

}

impl vstd::std_specs::cmp::PartialEqSpecImpl for ConfigNodeValue {
    open spec fn obeys_eq_spec() -> bool {
        true
    }

    open spec fn eq_spec(&self, other: &ConfigNodeValue) -> bool {
        self@ == other@
    }
}

impl PartialEq for ConfigNode {
    fn eq(&self, other: &ConfigNode) -> (equal: bool) {
        self.same(other)
    }
}

impl Eq for ConfigNode {

}

impl vstd::std_specs::cmp::PartialEqSpecImpl for ConfigNode {
    open spec fn obeys_eq_spec() -> bool {
        true
    }

    open spec fn eq_spec(&self, other: &ConfigNode) -> bool {
        self@ == other@
    }
}

impl Default for ConfigNode {
    fn default() -> (node: ConfigNode)
        ensures
            node@ == Map::<Seq<char>, ValueView>::empty(),
    {
        ConfigNode::new()
    }
}

/// Two lists whose entries stand for the same, place by place, stand for the same mapping.
proof fn lemma_entries_view_same(
    left: Seq<(String, ConfigNodeValue)>,
    right: Seq<(String, ConfigNodeValue)>,
)
    requires
        left.len() == right.len(),
        forall|i: int|
            0 <= i < left.len() ==> left[i].0@ == right[i].0@ && left[i].1@ == right[i].1@,
    ensures
        entries_view(left) == entries_view(right),
    decreases left.len(),
{
    if left.len() > 0 {
        lemma_entries_view_same(left.drop_last(), right.drop_last());
    }
}

/// An entry put at the end of a list is put into the mapping.
proof fn lemma_entries_view_push(
    entries: Seq<(String, ConfigNodeValue)>,
    entry: (String, ConfigNodeValue),
)
    ensures
        entries_view(entries.push(entry)) == entries_view(entries).insert(entry.0@, entry.1@),
{
    assert(entries.push(entry).drop_last() =~= entries);
}

/// The mapping holds the identifiers of the list and no others.
proof fn lemma_entries_view_contains(entries: Seq<(String, ConfigNodeValue)>, key: Seq<char>)
    ensures
        entries_view(entries).contains_key(key) <==> exists|i: int|
            0 <= i < entries.len() && entries[i].0@ == key,
    decreases entries.len(),
{
    if entries.len() > 0 {
        lemma_entries_view_contains(entries.drop_last(), key);
        if entries_view(entries).contains_key(key) {
            if entries.last().0@ == key {
                assert(entries[entries.len() - 1].0@ == key);
            } else {
                let i = choose|i: int|
                    0 <= i < entries.drop_last().len() && entries.drop_last()[i].0@ == key;
                assert(entries[i].0@ == key);
            }
        }
        if exists|i: int| 0 <= i < entries.len() && entries[i].0@ == key {
            let i = choose|i: int| 0 <= i < entries.len() && entries[i].0@ == key;
            if i < entries.len() - 1 {
                assert(entries.drop_last()[i].0@ == key);
            }
        }
    }
}

/// Where no identifier occurs twice, the mapping gives each identifier the value of its
/// entry.
proof fn lemma_entries_view_at(entries: Seq<(String, ConfigNodeValue)>, i: int)
    requires
        distinct_keys(entries),
        0 <= i < entries.len(),
    ensures
        entries_view(entries).contains_key(entries[i].0@),
        entries_view(entries)[entries[i].0@] == entries[i].1@,
    decreases entries.len(),
{
    if i < entries.len() - 1 {
        assert(entries.drop_last()[i] == entries[i]);
        lemma_entries_view_at(entries.drop_last(), i);
    }
}

/// To replace an entry by one with the same identifier is to put that one into the
/// mapping; no identifier occurs twice afterwards.
proof fn lemma_entries_view_update(
    entries: Seq<(String, ConfigNodeValue)>,
    i: int,
    entry: (String, ConfigNodeValue),
)
    requires
        distinct_keys(entries),
        0 <= i < entries.len(),
        entries[i].0@ == entry.0@,
    ensures
        distinct_keys(entries.update(i, entry)),
        entries_view(entries.update(i, entry)) == entries_view(entries).insert(
            entry.0@,
            entry.1@,
        ),
    decreases entries.len(),
{
    let updated = entries.update(i, entry);
    if i == entries.len() - 1 {
        assert(updated.drop_last() =~= entries.drop_last());
    } else {
        assert(updated.drop_last() =~= entries.drop_last().update(i, entry));
        lemma_entries_view_update(entries.drop_last(), i, entry);
    }
    assert(entries_view(updated) =~= entries_view(entries).insert(entry.0@, entry.1@));
}

/// Where no identifier occurs twice, the mapping has as many identifiers as the list
/// has entries.
proof fn lemma_entries_view_len(entries: Seq<(String, ConfigNodeValue)>)
    requires
        distinct_keys(entries),
    ensures
        entries_view(entries).dom().finite(),
        entries_view(entries).dom().len() == entries.len(),
    decreases entries.len(),
{
    if entries.len() > 0 {
        lemma_entries_view_len(entries.drop_last());
        lemma_entries_view_contains(entries.drop_last(), entries.last().0@);
    }
}

} // verus!
