//! The definition-tree data model: a node is either a scalar string or a
//! mapping from string keys to child nodes, with keys kept in stored order.

use vstd::prelude::*;

verus! {

/// One node of a parsed definition document. A `Mapping` holds its keyed
/// children as a vector of `(key, child)` entries; lookups take the first
/// entry whose key matches, so a well-formed tree keeps its keys distinct.
#[derive(Debug, PartialEq)]
pub enum Node {
    Scalar(String),
    Mapping(Vec<(String, Node)>),
}

/// The child associated with `key` among `entries`: the first entry whose
/// key reads as `key`, if any.
pub open spec fn lookup(entries: Seq<(String, Node)>, key: Seq<char>) -> Option<Node>
    decreases entries.len(),
{
    if entries.len() == 0 {
        None
    } else if entries[0].0@ == key {
        Some(entries[0].1)
    } else {
        lookup(entries.drop_first(), key)
    }
}

/// Whether a mapping's entries include the reserved `name` key (with a
/// value of any shape).
pub open spec fn has_name(entries: Seq<(String, Node)>) -> bool {
    lookup(entries, "name"@) is Some
}

impl Node {
    /// The entries of a mapping node.
    pub open spec fn entries(self) -> Seq<(String, Node)>
        recommends
            self is Mapping,
    {
        self->Mapping_0@
    }
}

/// The mathematical shape of a node: the same tree with every string
/// replaced by its character sequence.
pub enum NodeView {
    Scalar(Seq<char>),
    Mapping(Seq<(Seq<char>, NodeView)>),
}

/// The mathematical value of a node.
pub open spec fn node_model(node: Node) -> NodeView
    decreases node,
{
    match node {
        Node::Scalar(s) => NodeView::Scalar(s@),
        Node::Mapping(kids) => NodeView::Mapping(entries_model(kids@)),
    }
}

/// The mathematical value of a mapping's entries, in stored order.
pub open spec fn entries_model(entries: Seq<(String, Node)>) -> Seq<(Seq<char>, NodeView)>
    decreases entries,
{
    if entries.len() == 0 {
        Seq::empty()
    } else {
        seq![(entries[0].0@, node_model(entries[0].1))] + entries_model(entries.drop_first())
    }
}

/// Entry models are the per-entry models, index by index.
pub proof fn lemma_entries_model_index(entries: Seq<(String, Node)>)
    ensures
        entries_model(entries).len() == entries.len(),
        forall|i: int|
            0 <= i < entries.len() ==> #[trigger] entries_model(entries)[i] == (
            entries[i].0@,
            node_model(entries[i].1),
            ),
    decreases entries.len(),
{
    if entries.len() > 0 {
        lemma_entries_model_index(entries.drop_first());
        assert forall|i: int| 0 <= i < entries.len() implies #[trigger] entries_model(entries)[i]
            == (entries[i].0@, node_model(entries[i].1)) by {
            if i > 0 {
                assert(entries_model(entries)[i] == entries_model(entries.drop_first())[i - 1]);
                assert(entries.drop_first()[i - 1] == entries[i]);
            }
        }
    }
}

/// Whether no two entries share a key.
pub open spec fn distinct_keys(entries: Seq<(String, Node)>) -> bool {
    forall|i: int, j: int|
        0 <= i < j < entries.len() ==> (#[trigger] entries[i]).0@ != (#[trigger] entries[j]).0@
}

/// A well-formed tree: every mapping's keys are distinct, at every depth.
pub open spec fn wf(node: Node) -> bool
    decreases node,
{
    match node {
        Node::Scalar(_) => true,
        Node::Mapping(kids) => distinct_keys(kids@) && (forall|i: int|
            0 <= i < kids@.len() ==> wf(#[trigger] kids@[i].1)),
    }
}

/// The node reached from `node` by looking each key of `rel` up in turn.
pub open spec fn node_at(node: Node, rel: Seq<Seq<char>>) -> Option<Node>
    decreases rel.len(),
{
    if rel.len() == 0 {
        Some(node)
    } else {
        match node {
            Node::Scalar(_) => None,
            Node::Mapping(kids) => match lookup(kids@, rel.first()) {
                Some(child) => node_at(child, rel.drop_first()),
                None => None,
            },
        }
    }
}

/// With distinct keys, looking an entry's own key up finds that entry.
pub proof fn lemma_lookup_at_index(entries: Seq<(String, Node)>, i: int)
    requires
        distinct_keys(entries),
        0 <= i < entries.len(),
    ensures
        lookup(entries, entries[i].0@) == Some(entries[i].1),
    decreases entries.len(),
{
    if i > 0 {
        assert(entries[0].0@ != entries[i].0@);
        assert(entries.drop_first()[i - 1] == entries[i]);
        assert forall|a: int, b: int| 0 <= a < b < entries.drop_first().len() implies (
        #[trigger] entries.drop_first()[a]).0@ != (#[trigger] entries.drop_first()[b]).0@ by {
            assert(entries.drop_first()[a] == entries[a + 1]);
            assert(entries.drop_first()[b] == entries[b + 1]);
        }
        lemma_lookup_at_index(entries.drop_first(), i - 1);
    }
}

/// Two entry sequences that agree pairwise on key text and child model
/// have the same model.
pub proof fn lemma_entries_model_congruence(a: Seq<(String, Node)>, b: Seq<(String, Node)>)
    requires
        a.len() == b.len(),
        forall|i: int|
            0 <= i < a.len() ==> (#[trigger] a[i]).0@ == (#[trigger] b[i]).0@ && node_model(a[i].1)
                == node_model(b[i].1),
    ensures
        entries_model(a) == entries_model(b),
{
    lemma_entries_model_index(a);
    lemma_entries_model_index(b);
    assert(entries_model(a) =~= entries_model(b));
}

impl Clone for Node {
    /// A deep copy: the clone has the same mathematical value.
    fn clone(&self) -> (res: Self)
        ensures
            node_model(res) == node_model(*self),
        decreases self,
    {
        match self {
            Node::Scalar(s) => Node::Scalar(s.clone()),
            Node::Mapping(entries) => {
                let mut cloned: Vec<(String, Node)> = Vec::new();
                let mut i: usize = 0;
                while i < entries.len()
                    invariant
                        i <= entries@.len(),
                        cloned@.len() == i,
                        forall|k: int|
                            0 <= k < i ==> (#[trigger] cloned@[k]).0@ == entries@[k].0@
                                && node_model(cloned@[k].1) == node_model(entries@[k].1),
                        *self == Node::Mapping(*entries),
                    decreases entries@.len() - i,
                {
                    proof {
                        let m = *self;
                        assert(decreases_to!(m => m->Mapping_0));
                        assert(m->Mapping_0 == *entries);
                        assert(decreases_to!(*entries => entries@));
                        assert(decreases_to!(entries@ => entries@[i as int]));
                        assert(decreases_to!(entries@[i as int] => entries@[i as int].1));
                        assert(decreases_to!(m => entries@[i as int].1));
                    }
                    let pair = &entries[i];
                    cloned.push((pair.0.clone(), pair.1.clone()));
                    i = i + 1;
                }
                proof {
                    lemma_entries_model_congruence(cloned@, entries@);
                }
                Node::Mapping(cloned)
            },
        }
    }
}

/// Finds the child keyed by `key` in `entries`, scanning in stored order.
pub fn lookup_child<'a>(entries: &'a Vec<(String, Node)>, key: &String) -> (r: Option<&'a Node>)
    ensures
        match r {
            Some(child) => lookup(entries@, key@) == Some(*child),
            None => lookup(entries@, key@) is None,
        },
{
    proof {
        assert(entries@.skip(0) =~= entries@);
    }
    let mut i: usize = 0;
    while i < entries.len()
        invariant
            0 <= i <= entries@.len(),
            lookup(entries@.skip(i as int), key@) == lookup(entries@, key@),
        decreases entries@.len() - i,
    {
        proof {
            assert(entries@.skip(i as int)[0] == entries@[i as int]);
        }
        if entries[i].0.eq(key) {
            return Some(&entries[i].1);
        }
        proof {
            assert(entries@.skip(i as int).drop_first() =~= entries@.skip(i + 1));
        }
        i = i + 1;
    }
    None
}

} // verus!
