//! Structural validation: every mapping node below the root must carry a
//! `name` entry. Validation walks children in stored order and stops at
//! the first offender.

use vstd::prelude::*;
use vstd::string::StringExecFns;

use crate::tree::has_name;
use crate::tree::lookup_child;
use crate::tree::node_at;
use crate::tree::node_model;
use crate::tree::Node;
use crate::tree::NodeView;

verus! {

/// The first validation failure below (and including, when `path` is
/// non-empty) `node`, walking depth-first in stored entry order: the
/// offender's path from the root, and its value.
pub open spec fn first_failure(path: Seq<Seq<char>>, node: Node) -> Option<
    (Seq<Seq<char>>, NodeView),
>
    decreases node,
{
    match node {
        Node::Scalar(_) => None,
        Node::Mapping(kids) => if path.len() > 0 && !has_name(kids@) {
            Some((path, node_model(node)))
        } else {
            first_failure_entries(path, kids@)
        },
    }
}

/// The first validation failure among the subtrees of `entries`, each
/// child examined under its key appended to `path`.
pub open spec fn first_failure_entries(
    path: Seq<Seq<char>>,
    entries: Seq<(String, Node)>,
) -> Option<(Seq<Seq<char>>, NodeView)>
    decreases entries,
{
    if entries.len() == 0 {
        None
    } else {
        let head = if entries[0].0@ == "name"@ {
            None
        } else {
            first_failure(path.push(entries[0].0@), entries[0].1)
        };
        if head is Some {
            head
        } else {
            first_failure_entries(path, entries.drop_first())
        }
    }
}

/// `node` itself and every mapping below it that validation visits carry
/// a `name` entry; the value under a `name` key is never visited.
pub open spec fn properly_named(node: Node) -> bool
    decreases node,
{
    match node {
        Node::Scalar(_) => true,
        Node::Mapping(kids) => has_name(kids@) && (forall|i: int|
            0 <= i < kids@.len() && (#[trigger] kids@[i]).0@ != "name"@ ==> properly_named(
                kids@[i].1,
            )),
    }
}

/// Every mapping strictly below `node` that validation visits — the
/// value under a `name` key is never visited — carries a `name` entry;
/// `node` itself is exempt.
pub open spec fn children_properly_named(node: Node) -> bool {
    match node {
        Node::Scalar(_) => true,
        Node::Mapping(kids) => forall|i: int|
            0 <= i < kids@.len() && (#[trigger] kids@[i]).0@ != "name"@ ==> properly_named(
                kids@[i].1,
            ),
    }
}

/// Validation succeeds exactly when no non-root mapping lacks a `name`
/// entry: at the root call (empty path) every mapping strictly below the
/// root must be named; at a non-root call the node itself must be named
/// too.
pub proof fn lemma_validate_ok_iff_named(path: Seq<Seq<char>>, node: Node)
    ensures
        first_failure(path, node) is None <==> (if path.len() == 0 {
            children_properly_named(node)
        } else {
            properly_named(node)
        }),
    decreases node,
{
    match node {
        Node::Scalar(_) => {},
        Node::Mapping(kids) => {
            lemma_entries_ok_iff_named(path, kids@);
        },
    }
}

/// The subtree walk over `entries` finds no failure exactly when every
/// entry's child is properly named.
proof fn lemma_entries_ok_iff_named(path: Seq<Seq<char>>, entries: Seq<(String, Node)>)
    ensures
        first_failure_entries(path, entries) is None <==> (forall|i: int|
            0 <= i < entries.len() && (#[trigger] entries[i]).0@ != "name"@ ==> properly_named(
                entries[i].1,
            )),
    decreases entries,
{
    if entries.len() > 0 {
        lemma_validate_ok_iff_named(path.push(entries[0].0@), entries[0].1);
        lemma_entries_ok_iff_named(path, entries.drop_first());
        if first_failure_entries(path, entries) is None {
            assert forall|i: int|
                0 <= i < entries.len() && (#[trigger] entries[i]).0@
                    != "name"@ implies properly_named(entries[i].1) by {
                if i > 0 {
                    assert(entries.drop_first()[i - 1] == entries[i]);
                }
            }
        } else {
            let head_failed = entries[0].0@ != "name"@ && first_failure(
                path.push(entries[0].0@),
                entries[0].1,
            ) is Some;
            if !head_failed {
                let j = choose|j: int|
                    0 <= j < entries.drop_first().len() && (#[trigger] entries.drop_first()[j]).0@
                        != "name"@ && !properly_named(entries.drop_first()[j].1);
                assert(entries.drop_first()[j] == entries[j + 1]);
                assert(!properly_named(entries[j + 1].1));
            }
        }
    }
}

/// A failure reported under some entry of `entries` originates at one of
/// those entries, under that entry's key.
proof fn lemma_entries_err_has_source(path: Seq<Seq<char>>, entries: Seq<(String, Node)>)
    requires
        first_failure_entries(path, entries) is Some,
    ensures
        exists|i: int|
            0 <= i < entries.len() && (#[trigger] entries[i]).0@ != "name"@ && first_failure(
                path.push(entries[i].0@),
                entries[i].1,
            ) == first_failure_entries(path, entries),
    decreases entries,
{
    if entries[0].0@ != "name"@ && first_failure(path.push(entries[0].0@), entries[0].1) is Some {
        assert(first_failure(path.push(entries[0].0@), entries[0].1) == first_failure_entries(
            path,
            entries,
        ));
    } else {
        lemma_entries_err_has_source(path, entries.drop_first());
        let j = choose|j: int|
            0 <= j < entries.drop_first().len() && (#[trigger] entries.drop_first()[j]).0@
                != "name"@ && first_failure(
                path.push(entries.drop_first()[j].0@),
                entries.drop_first()[j].1,
            ) == first_failure_entries(path, entries.drop_first());
        assert(entries.drop_first()[j] == entries[j + 1]);
        assert(first_failure(path.push(entries[j + 1].0@), entries[j + 1].1)
            == first_failure_entries(path, entries));
    }
}

/// Following `rel` from `node` reaches a mapping that carries a `name`
/// entry.
pub open spec fn named_waypoint(node: Node, rel: Seq<Seq<char>>) -> bool {
    node_at(node, rel) matches Some(a) && a is Mapping && has_name(a.entries())
}

/// In a well-formed tree, a reported failure names a real offender, and
/// the first one down its branch: the reported path extends the call's
/// path; following its remainder from `node` reaches a mapping without a
/// `name` entry whose value is the one reported; and every node strictly
/// between `node` and the offender is a named mapping.
pub proof fn lemma_error_locates_offender(path: Seq<Seq<char>>, node: Node)
    requires
        crate::tree::wf(node),
        first_failure(path, node) is Some,
    ensures
        ({
            let (p, n) = first_failure(path, node)->0;
            &&& path.len() <= p.len()
            &&& path.is_prefix_of(p)
            &&& p.len() > 0
            &&& node_at(node, p.skip(path.len() as int)) matches Some(f) && node_model(f) == n
                && f is Mapping && !has_name(f.entries())
            &&& forall|t: int|
                1 <= t < p.len() - path.len() ==> named_waypoint(
                    node,
                    #[trigger] p.skip(path.len() as int).take(t),
                )
        }),
    decreases node,
{
    let (p, n) = first_failure(path, node)->0;
    match node {
        Node::Scalar(_) => {},
        Node::Mapping(kids) => {
            if path.len() > 0 && !has_name(kids@) {
                assert(p == path);
                assert(p.skip(path.len() as int) =~= Seq::<Seq<char>>::empty());
                assert(path.is_prefix_of(p));
            } else {
                lemma_entries_err_has_source(path, kids@);
                let i = choose|i: int|
                    0 <= i < kids@.len() && (#[trigger] kids@[i]).0@ != "name"@ && first_failure(
                        path.push(kids@[i].0@),
                        kids@[i].1,
                    ) == first_failure_entries(path, kids@);
                let key = kids@[i].0@;
                let child = kids@[i].1;
                lemma_error_locates_offender(path.push(key), child);
                assert(path.push(key).is_prefix_of(p));
                assert(path.is_prefix_of(path.push(key)));
                assert(path.is_prefix_of(p));
                assert(path.push(key) == p.subrange(0, path.len() as int + 1));
                assert(path.push(key)[path.len() as int] == key);
                assert(p.subrange(0, path.len() as int + 1)[path.len() as int] == p[path.len()
                    as int]);
                assert(p[path.len() as int] == key);
                crate::tree::lemma_lookup_at_index(kids@, i);
                let rel = p.skip(path.len() as int);
                assert(rel.first() == key);
                assert(rel.drop_first() =~= p.skip(path.len() as int + 1));
                assert(node_at(node, rel) == node_at(child, p.skip(path.len() as int + 1)));
                assert forall|t: int| 1 <= t < p.len() - path.len() implies named_waypoint(
                    node,
                    #[trigger] rel.take(t),
                ) by {
                    assert(rel.take(t).first() == key);
                    assert(node_at(node, rel.take(t)) == node_at(child, rel.take(t).drop_first()));
                    if t == 1 {
                        assert(rel.take(1).drop_first() =~= Seq::<Seq<char>>::empty());
                        assert(node_at(child, Seq::<Seq<char>>::empty()) == Some(child));
                        // the failure lies strictly below `child`, so
                        // `child` passed its own name check
                        assert(p.len() > path.len() + 1);
                        assert(p != path.push(key));
                        assert(child is Mapping);
                        assert(has_name(child.entries()));
                    } else {
                        assert(rel.take(t).drop_first() =~= p.skip(path.len() as int + 1).take(
                            t - 1,
                        ));
                        assert(named_waypoint(child, p.skip(path.len() as int + 1).take(t - 1)));
                    }
                }
            }
        },
    }
}

/// A reported naming failure: the path of keys from the root to the
/// offending mapping node, and a copy of that node's contents.
#[derive(Debug, PartialEq)]
pub struct ValidationError {
    pub path: Vec<String>,
    pub node: Node,
}

/// Checks that every mapping at or below `node` — except the root itself,
/// the call where `path` is empty, and values under a reserved `name`
/// key, which are never visited — carries a `name` entry. Fails with the
/// first offender in depth-first stored order, or succeeds when there is
/// none.
pub fn validate(path: &Vec<String>, node: &Node) -> (r: Result<(), ValidationError>)
    requires
        *node is Mapping,
    ensures
        match r {
            Ok(_) => first_failure(path.deep_view(), *node) is None,
            Err(e) => first_failure(path.deep_view(), *node) == Some(
                (e.path.deep_view(), node_model(e.node)),
            ),
        },
    decreases node,
{
    let entries = match node {
        Node::Mapping(v) => v,
        Node::Scalar(_) => {
            proof {
                assert(false);
            }
            return Ok(());
        },
    };
    let name_key = String::from_str("name");
    if path.len() != 0 {
        if lookup_child(entries, &name_key).is_none() {
            return Err(ValidationError { path: clone_path(path), node: node.clone() });
        }
    }
    let ghost pathv = path.deep_view();
    let mut i: usize = 0;
    proof {
        assert(entries@.skip(0) =~= entries@);
    }
    while i < entries.len()
        invariant
            i <= entries@.len(),
            *node is Mapping,
            *node == Node::Mapping(*entries),
            pathv == path.deep_view(),
            pathv.len() > 0 ==> has_name(entries@),
            name_key@ == "name"@,
            first_failure_entries(pathv, entries@) == first_failure_entries(
                pathv,
                entries@.skip(i as int),
            ),
        decreases entries@.len() - i,
    {
        let ghost rest = entries@.skip(i as int);
        proof {
            assert(rest[0] == entries@[i as int]);
            assert(rest.drop_first() =~= entries@.skip(i + 1));
        }
        let pair = &entries[i];
        let child_is_mapping = match &pair.1 {
            Node::Mapping(_) => true,
            Node::Scalar(_) => false,
        };
        if child_is_mapping && !pair.0.eq(&name_key) {
            let mut child_path = clone_path(path);
            child_path.push(pair.0.clone());
            proof {
                assert(child_path.deep_view() =~= pathv.push(entries@[i as int].0@));
                let m = *node;
                assert(decreases_to!(m => m->Mapping_0));
                assert(m->Mapping_0 == *entries);
                assert(decreases_to!(*entries => entries@));
                assert(decreases_to!(entries@ => entries@[i as int]));
                assert(decreases_to!(entries@[i as int] => entries@[i as int].1));
                assert(decreases_to!(m => entries@[i as int].1));
            }
            match validate(&child_path, &pair.1) {
                Ok(_) => {
                    proof {
                        assert(first_failure(pathv.push(rest[0].0@), rest[0].1) is None);
                        assert(first_failure_entries(pathv, rest) == first_failure_entries(
                            pathv,
                            rest.drop_first(),
                        ));
                    }
                },
                Err(e) => {
                    proof {
                        assert(first_failure(pathv.push(rest[0].0@), rest[0].1) == Some(
                            (e.path.deep_view(), node_model(e.node)),
                        ));
                        assert(first_failure_entries(pathv, rest) == Some(
                            (e.path.deep_view(), node_model(e.node)),
                        ));
                        assert(pathv.len() == path@.len());
                        assert(*node == Node::Mapping(*entries));
                        assert(pathv.len() > 0 ==> has_name(entries@));
                        assert(first_failure(pathv, *node) == first_failure_entries(
                            pathv,
                            entries@,
                        ));
                    }
                    return Err(e);
                },
            }
        } else {
            proof {
                if rest[0].0@ != "name"@ {
                    assert(first_failure(pathv.push(rest[0].0@), rest[0].1) is None);
                }
                assert(first_failure_entries(pathv, rest) == first_failure_entries(
                    pathv,
                    rest.drop_first(),
                ));
            }
        }
        i = i + 1;
    }
    proof {
        assert(entries@.skip(entries@.len() as int) =~= Seq::<(String, Node)>::empty());
    }
    Ok(())
}

/// Copies a path of keys; the copy reads as the original.
fn clone_path(path: &Vec<String>) -> (r: Vec<String>)
    ensures
        r.deep_view() == path.deep_view(),
{
    let mut r: Vec<String> = Vec::new();
    let mut i: usize = 0;
    while i < path.len()
        invariant
            i <= path@.len(),
            r@.len() == i,
            forall|k: int| 0 <= k < i ==> (#[trigger] r@[k])@ == path@[k]@,
        decreases path@.len() - i,
    {
        r.push(path[i].clone());
        i = i + 1;
    }
    proof {
        assert(r.deep_view() =~= path.deep_view());
    }
    r
}

} // verus!
