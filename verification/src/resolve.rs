//! Resolution of a dotted identifier against the definition tree.

use vstd::prelude::*;
use vstd::string::StrSliceExecFns;
use vstd::string::StringExecFns;

use crate::tree::lookup;
use crate::tree::Node;

verus! {

/// The segment tokens of an identifier: the maximal `.`-free pieces, in
/// order. Splitting never yields an empty sequence; the empty identifier
/// splits to a single empty token.
pub open spec fn split_tokens(s: Seq<char>) -> Seq<Seq<char>>
    decreases s.len(),
{
    if s.len() == 0 {
        seq![Seq::<char>::empty()]
    } else if s[0] == '.' {
        seq![Seq::<char>::empty()] + split_tokens(s.drop_first())
    } else {
        let rest = split_tokens(s.drop_first());
        seq![seq![s[0]] + rest[0]] + rest.drop_first()
    }
}

/// Every identifier, the empty one included, splits to at least one token.
pub proof fn lemma_split_tokens_len(s: Seq<char>)
    ensures
        split_tokens(s).len() >= 1,
    decreases s.len(),
{
    if s.len() > 0 {
        lemma_split_tokens_len(s.drop_first());
    }
}

/// The empty identifier splits to exactly one token, the empty string.
pub proof fn lemma_split_empty()
    ensures
        split_tokens(Seq::<char>::empty()) == seq![Seq::<char>::empty()],
{
}

/// Whether a piece of an identifier contains no separator.
pub open spec fn dot_free(s: Seq<char>) -> bool {
    forall|k: int| 0 <= k < s.len() ==> s[k] != '.'
}

/// A separator-free string is a single token.
proof fn lemma_split_dot_free(s: Seq<char>)
    requires
        dot_free(s),
    ensures
        split_tokens(s) == seq![s],
    decreases s.len(),
{
    if s.len() == 0 {
        assert(split_tokens(s) =~~= seq![s]);
    } else {
        lemma_split_dot_free(s.drop_first());
        assert(seq![s[0]] + s.drop_first() =~= s);
        assert(split_tokens(s) =~~= seq![s]);
    }
}

/// Splitting at the first separator: a separator-free prefix becomes the
/// first token, and the remainder splits on its own.
proof fn lemma_split_at_dot(a: Seq<char>, b: Seq<char>)
    requires
        dot_free(a),
    ensures
        split_tokens(a + seq!['.'] + b) == seq![a] + split_tokens(b),
    decreases a.len(),
{
    let s = a + seq!['.'] + b;
    if a.len() == 0 {
        assert(s[0] == '.');
        assert(s.drop_first() =~= b);
        assert(split_tokens(s) =~~= seq![a] + split_tokens(b));
    } else {
        assert(s[0] == a[0]);
        assert(s.drop_first() =~= a.drop_first() + seq!['.'] + b);
        lemma_split_at_dot(a.drop_first(), b);
        let rest = split_tokens(s.drop_first());
        assert(rest[0] == a.drop_first());
        assert(seq![s[0]] + rest[0] =~= a);
        assert(rest.drop_first() =~= split_tokens(b));
        assert(split_tokens(s) =~~= seq![a] + split_tokens(b));
    }
}

/// The mathematical shape of one resolution step: either the token matched
/// a named mapping child, or it did not resolve to a label.
pub enum StepView {
    Known { label: Seq<char>, token: Seq<char> },
    Unknown { token: Seq<char> },
}

impl StepView {
    /// The token this step was produced for.
    pub open spec fn token(self) -> Seq<char> {
        match self {
            StepView::Known { label: _, token } => token,
            StepView::Unknown { token } => token,
        }
    }
}

/// One annotated step of a resolved identifier. `Known` carries the label
/// of the matched tree position; `Unknown` records a token that matched an
/// unnamed node, matched a scalar, matched nothing, or came after the
/// position had already been lost.
#[derive(Debug, PartialEq)]
pub enum ResolutionStep {
    Known { label: String, token: String },
    Unknown { token: String },
}

impl View for ResolutionStep {
    type V = StepView;

    open spec fn view(&self) -> StepView {
        match self {
            ResolutionStep::Known { label, token } => StepView::Known {
                label: label@,
                token: token@,
            },
            ResolutionStep::Unknown { token } => StepView::Unknown { token: token@ },
        }
    }
}

impl DeepView for ResolutionStep {
    type V = StepView;

    open spec fn deep_view(&self) -> StepView {
        self.view()
    }
}

/// The current search position: the entries of the mapping the walk has
/// reached, or `None` once a token has failed to match a mapping child.
pub open spec fn step_of(pos: Option<Seq<(String, Node)>>, token: Seq<char>) -> StepView {
    match pos {
        None => StepView::Unknown { token },
        Some(entries) => match lookup(entries, token) {
            Some(Node::Mapping(sub)) => match lookup(sub@, "name"@) {
                Some(Node::Scalar(label)) => StepView::Known { label: label@, token },
                _ => StepView::Unknown { token },
            },
            _ => StepView::Unknown { token },
        },
    }
}

/// The position after consuming `token` at `pos`: the matched child's
/// entries when the token matched a mapping child (named or not), and
/// `None` otherwise.
pub open spec fn next_pos(pos: Option<Seq<(String, Node)>>, token: Seq<char>) -> Option<
    Seq<(String, Node)>,
> {
    match pos {
        None => None,
        Some(entries) => match lookup(entries, token) {
            Some(Node::Mapping(sub)) => Some(sub@),
            _ => None,
        },
    }
}

/// The position after consuming a whole token sequence.
pub open spec fn pos_after(pos: Option<Seq<(String, Node)>>, tokens: Seq<Seq<char>>) -> Option<
    Seq<(String, Node)>,
>
    decreases tokens.len(),
{
    if tokens.len() == 0 {
        pos
    } else {
        pos_after(next_pos(pos, tokens.first()), tokens.drop_first())
    }
}

/// The annotated steps produced by resolving `tokens` from `pos`: one step
/// per token, in token order.
pub open spec fn resolve_steps(pos: Option<Seq<(String, Node)>>, tokens: Seq<Seq<char>>) -> Seq<
    StepView,
>
    decreases tokens.len(),
{
    if tokens.len() == 0 {
        Seq::empty()
    } else {
        seq![step_of(pos, tokens.first())] + resolve_steps(
            next_pos(pos, tokens.first()),
            tokens.drop_first(),
        )
    }
}

/// Splits `identifier` on `.` into its segment tokens, in order.
pub fn split_identifier(identifier: &str) -> (tokens: Vec<String>)
    ensures
        tokens.deep_view() == split_tokens(identifier@),
{
    let n = identifier.unicode_len();
    let mut tokens: Vec<String> = Vec::new();
    let mut start: usize = 0;
    let mut i: usize = 0;
    proof {
        assert(identifier@.skip(0) =~= identifier@);
        assert(tokens.deep_view() =~~= Seq::<Seq<char>>::empty());
        assert(Seq::<Seq<char>>::empty() + split_tokens(identifier@) =~= split_tokens(
            identifier@,
        ));
    }
    while i < n
        invariant
            start <= i <= n == identifier@.len(),
            forall|k: int| start <= k < i ==> identifier@[k] != '.',
            split_tokens(identifier@) == tokens.deep_view() + split_tokens(
                identifier@.skip(start as int),
            ),
        decreases n - i,
    {
        if identifier.get_char(i) == '.' {
            let ghost piece = identifier@.subrange(start as int, i as int);
            proof {
                assert(identifier@.skip(start as int) =~= piece + seq!['.'] + identifier@.skip(
                    i + 1,
                ));
                lemma_split_at_dot(piece, identifier@.skip(i + 1));
            }
            let token = String::from_str(identifier.substring_char(start, i));
            let ghost old_tokens = tokens.deep_view();
            tokens.push(token);
            proof {
                assert(tokens.deep_view() =~~= old_tokens.push(piece));
                assert(old_tokens.push(piece) + split_tokens(identifier@.skip(i + 1)) =~= old_tokens
                    + (seq![piece] + split_tokens(identifier@.skip(i + 1))));
            }
            start = i + 1;
        }
        i = i + 1;
    }
    let ghost piece = identifier@.skip(start as int);
    proof {
        assert(piece =~= identifier@.subrange(start as int, n as int));
        lemma_split_dot_free(piece);
    }
    let token = String::from_str(identifier.substring_char(start, n));
    let ghost old_tokens = tokens.deep_view();
    tokens.push(token);
    proof {
        assert(tokens.deep_view() =~~= old_tokens.push(piece));
        assert(old_tokens.push(piece) =~= old_tokens + seq![piece]);
    }
    tokens
}

/// Consuming one more token advances the position by one `next_pos` step.
proof fn lemma_pos_after_snoc(
    pos: Option<Seq<(String, Node)>>,
    tokens: Seq<Seq<char>>,
    t: Seq<char>,
)
    ensures
        pos_after(pos, tokens.push(t)) == next_pos(pos_after(pos, tokens), t),
    decreases tokens.len(),
{
    if tokens.len() == 0 {
        assert(tokens.push(t).first() == t);
        assert(tokens.push(t).drop_first() =~= Seq::<Seq<char>>::empty());
        assert(pos_after(next_pos(pos, t), Seq::<Seq<char>>::empty()) == next_pos(pos, t));
    } else {
        let next = next_pos(pos, tokens.first());
        assert(tokens.push(t).first() == tokens.first());
        assert(tokens.push(t).drop_first() =~= tokens.drop_first().push(t));
        assert(pos_after(pos, tokens.push(t)) == pos_after(next, tokens.drop_first().push(t)));
        lemma_pos_after_snoc(next, tokens.drop_first(), t);
        assert(pos_after(next, tokens.drop_first().push(t)) == next_pos(
            pos_after(next, tokens.drop_first()),
            t,
        ));
        assert(pos_after(pos, tokens) == pos_after(next, tokens.drop_first()));
    }
}

/// Resolution yields exactly one step per token, each step carrying its
/// own token, in input order.
pub proof fn lemma_resolve_len(pos: Option<Seq<(String, Node)>>, tokens: Seq<Seq<char>>)
    ensures
        resolve_steps(pos, tokens).len() == tokens.len(),
        forall|i: int|
            0 <= i < tokens.len() ==> (#[trigger] resolve_steps(pos, tokens)[i]).token()
                == tokens[i],
    decreases tokens.len(),
{
    if tokens.len() > 0 {
        lemma_resolve_len(next_pos(pos, tokens.first()), tokens.drop_first());
        assert forall|i: int| 0 <= i < tokens.len() implies (#[trigger] resolve_steps(
            pos,
            tokens,
        )[i]).token() == tokens[i] by {
            if i > 0 {
                assert(resolve_steps(pos, tokens)[i] == resolve_steps(
                    next_pos(pos, tokens.first()),
                    tokens.drop_first(),
                )[i - 1]);
                assert(tokens.drop_first()[i - 1] == tokens[i]);
            }
        }
    }
}

/// What follows the first `k` steps depends only on the position those
/// steps reached, never on whether any of them produced a label: the tail
/// is itself the resolution of the remaining tokens from that position.
pub proof fn lemma_resolve_decompose(
    pos: Option<Seq<(String, Node)>>,
    tokens: Seq<Seq<char>>,
    k: int,
)
    requires
        0 <= k <= tokens.len(),
    ensures
        resolve_steps(pos, tokens) == resolve_steps(pos, tokens.take(k)) + resolve_steps(
            pos_after(pos, tokens.take(k)),
            tokens.skip(k),
        ),
    decreases k,
{
    if k == 0 {
        assert(tokens.take(0) =~= Seq::<Seq<char>>::empty());
        assert(tokens.skip(0) =~= tokens);
        assert(resolve_steps(pos, tokens.take(0)) + resolve_steps(pos, tokens) =~= resolve_steps(
            pos,
            tokens,
        ));
    } else {
        let next = next_pos(pos, tokens.first());
        lemma_resolve_decompose(next, tokens.drop_first(), k - 1);
        assert(tokens.take(k).first() == tokens.first());
        assert(tokens.take(k).drop_first() =~= tokens.drop_first().take(k - 1));
        assert(tokens.drop_first().skip(k - 1) =~= tokens.skip(k));
        assert(seq![step_of(pos, tokens.first())] + (resolve_steps(
            next,
            tokens.drop_first().take(k - 1),
        ) + resolve_steps(
            pos_after(next, tokens.drop_first().take(k - 1)),
            tokens.skip(k),
        )) =~= (seq![step_of(pos, tokens.first())] + resolve_steps(
            next,
            tokens.drop_first().take(k - 1),
        )) + resolve_steps(pos_after(next, tokens.drop_first().take(k - 1)), tokens.skip(k)));
    }
}

/// Once the position is lost, it stays lost: from a `None` position every
/// remaining token degrades to an `Unknown` step.
pub proof fn lemma_lost_stays_lost(tokens: Seq<Seq<char>>)
    ensures
        pos_after(None, tokens) is None,
        forall|i: int|
            0 <= i < tokens.len() ==> #[trigger] resolve_steps(None, tokens)[i] == (StepView::Unknown {
                token: tokens[i],
            }),
    decreases tokens.len(),
{
    if tokens.len() > 0 {
        lemma_lost_stays_lost(tokens.drop_first());
        lemma_resolve_len(None, tokens);
        assert forall|i: int| 0 <= i < tokens.len() implies #[trigger] resolve_steps(
            None,
            tokens,
        )[i] == (StepView::Unknown { token: tokens[i] }) by {
            if i > 0 {
                assert(resolve_steps(None, tokens)[i] == resolve_steps(
                    None,
                    tokens.drop_first(),
                )[i - 1]);
                assert(tokens.drop_first()[i - 1] == tokens[i]);
            }
        }
    }
}

/// Monotonicity of failure: if the walk's position is already lost after
/// the first `k` tokens — a token missed, not merely an unnamed match —
/// then every step from `k` on is `Unknown`.
pub proof fn lemma_resolve_monotone(
    pos: Option<Seq<(String, Node)>>,
    tokens: Seq<Seq<char>>,
    k: int,
    j: int,
)
    requires
        0 <= k <= j < tokens.len(),
        pos_after(pos, tokens.take(k)) is None,
    ensures
        resolve_steps(pos, tokens)[j] == (StepView::Unknown { token: tokens[j] }),
{
    lemma_resolve_decompose(pos, tokens, k);
    lemma_resolve_len(pos, tokens.take(k));
    lemma_lost_stays_lost(tokens.skip(k));
    lemma_resolve_len(None, tokens.skip(k));
    assert(pos_after(pos, tokens.take(k)) == None::<Seq<(String, Node)>>);
    let a = resolve_steps(pos, tokens.take(k));
    let b = resolve_steps(None, tokens.skip(k));
    assert(a.len() == k);
    assert(resolve_steps(pos, tokens) == a + b);
    assert((a + b)[j] == b[j - k]);
    assert(b[j - k] == (StepView::Unknown { token: tokens.skip(k)[j - k] }));
    assert(tokens.skip(k)[j - k] == tokens[j]);
}

/// Resolves a dotted identifier against the tree rooted at `root`:
/// one step per segment token, in order, as `resolve_steps` describes.
pub fn resolve(root: &Node, identifier: &str) -> (steps: Vec<ResolutionStep>)
    requires
        *root is Mapping,
    ensures
        steps.deep_view() == resolve_steps(Some(root.entries()), split_tokens(identifier@)),
        steps@.len() == split_tokens(identifier@).len(),
{
    proof {
        lemma_resolve_len(Some(root.entries()), split_tokens(identifier@));
    }
    let root_entries = match root {
        Node::Mapping(v) => v,
        Node::Scalar(_) => {
            proof {
                assert(false);
            }
            return Vec::new();
        },
    };
    let tokens = split_identifier(identifier);
    let ghost toks = split_tokens(identifier@);
    let name_key = String::from_str("name");
    let mut steps: Vec<ResolutionStep> = Vec::new();
    let mut pos: Option<&Vec<(String, Node)>> = Some(root_entries);
    let mut i: usize = 0;
    proof {
        assert(toks.take(0) =~= Seq::<Seq<char>>::empty());
        assert(steps.deep_view() =~~= Seq::<StepView>::empty());
        assert(toks.skip(0) =~= toks);
        assert(Seq::<StepView>::empty() + resolve_steps(Some(root.entries()), toks)
            =~= resolve_steps(Some(root.entries()), toks));
    }
    while i < tokens.len()
        invariant
            *root is Mapping,
            i <= tokens@.len(),
            tokens.deep_view() == toks,
            name_key@ == "name"@,
            steps.deep_view().len() == i,
            match pos {
                Some(e) => pos_after(Some(root.entries()), toks.take(i as int)) == Some(e@),
                None => pos_after(Some(root.entries()), toks.take(i as int)) is None,
            },
            resolve_steps(Some(root.entries()), toks) == steps.deep_view() + resolve_steps(
                pos_after(Some(root.entries()), toks.take(i as int)),
                toks.skip(i as int),
            ),
        decreases tokens@.len() - i,
    {
        let ghost cur = pos_after(Some(root.entries()), toks.take(i as int));
        let ghost old_steps = steps.deep_view();
        proof {
            assert(tokens@[i as int].deep_view() == toks[i as int]);
            assert(toks.skip(i as int).first() == toks[i as int]);
            assert(toks.skip(i as int).drop_first() =~= toks.skip(i + 1));
            assert(toks.take(i as int).push(toks[i as int]) =~= toks.take(i + 1));
            lemma_pos_after_snoc(Some(root.entries()), toks.take(i as int), toks[i as int]);
        }
        let token = tokens[i].clone();
        match pos {
            None => {
                steps.push(ResolutionStep::Unknown { token });
            },
            Some(entries) => {
                match crate::tree::lookup_child(entries, &token) {
                    Some(child) => match child {
                        Node::Mapping(sub) => {
                            match crate::tree::lookup_child(sub, &name_key) {
                                Some(Node::Scalar(label)) => {
                                    steps.push(ResolutionStep::Known {
                                        label: label.clone(),
                                        token,
                                    });
                                },
                                _ => {
                                    steps.push(ResolutionStep::Unknown { token });
                                },
                            }
                            pos = Some(sub);
                        },
                        Node::Scalar(_) => {
                            pos = None;
                            steps.push(ResolutionStep::Unknown { token });
                        },
                    },
                    None => {
                        pos = None;
                        steps.push(ResolutionStep::Unknown { token });
                    },
                }
            },
        }
        proof {
            let sv = step_of(cur, toks[i as int]);
            assert(steps.deep_view() =~~= old_steps.push(sv));
            assert(old_steps.push(sv) + resolve_steps(next_pos(cur, toks[i as int]), toks.skip(i + 1))
                =~= old_steps + (seq![sv] + resolve_steps(
                next_pos(cur, toks[i as int]),
                toks.skip(i + 1),
            )));
        }
        i = i + 1;
    }
    proof {
        assert(toks.skip(i as int) =~= Seq::<Seq<char>>::empty());
        assert(steps.deep_view() + Seq::<StepView>::empty() =~= steps.deep_view());
    }
    steps
}

} // verus!
