//! Presentation of resolution steps: `Known` steps render as
//! `label(token)`, `Unknown` steps as the bare token; steps are joined by
//! single spaces and followed by one newline.

use vstd::prelude::*;
use vstd::string::StringExecFns;

use crate::resolve::ResolutionStep;
use crate::resolve::StepView;

verus! {

/// The text of one rendered step.
pub open spec fn render_step(step: StepView) -> Seq<char> {
    match step {
        StepView::Known { label, token } => label + "("@ + token + ")"@,
        StepView::Unknown { token } => token,
    }
}

/// The rendered steps joined by single spaces, without the final newline.
pub open spec fn joined(steps: Seq<StepView>) -> Seq<char>
    decreases steps.len(),
{
    if steps.len() == 0 {
        Seq::empty()
    } else if steps.len() == 1 {
        render_step(steps[0])
    } else {
        render_step(steps[0]) + " "@ + joined(steps.drop_first())
    }
}

/// The full rendering of a step sequence: space-joined steps and a
/// trailing newline.
pub open spec fn rendered(steps: Seq<StepView>) -> Seq<char> {
    joined(steps) + "\n"@
}

/// Appending one more step extends the joined text by a space (when any
/// step came before) and the step's own rendering.
proof fn lemma_joined_push(steps: Seq<StepView>, step: StepView)
    ensures
        steps.len() == 0 ==> joined(steps.push(step)) == render_step(step),
        steps.len() >= 1 ==> joined(steps.push(step)) == joined(steps) + " "@ + render_step(step),
    decreases steps.len(),
{
    if steps.len() == 0 {
        assert(steps.push(step)[0] == step);
    } else if steps.len() == 1 {
        assert(steps.push(step)[0] == steps[0]);
        assert(steps.push(step).drop_first() =~= seq![step]);
        assert(joined(seq![step]) == render_step(step));
    } else {
        assert(steps.push(step)[0] == steps[0]);
        assert(steps.push(step).drop_first() =~= steps.drop_first().push(step));
        lemma_joined_push(steps.drop_first(), step);
        assert(render_step(steps[0]) + " "@ + (joined(steps.drop_first()) + " "@ + render_step(
            step,
        )) =~= (render_step(steps[0]) + " "@ + joined(steps.drop_first())) + " "@ + render_step(
            step,
        ));
    }
}

/// Renders resolution steps to the exact output text.
pub fn render(steps: &Vec<ResolutionStep>) -> (out: String)
    ensures
        out@ == rendered(steps.deep_view()),
{
    let mut out = String::new();
    let mut i: usize = 0;
    proof {
        assert(steps.deep_view().take(0) =~= Seq::<StepView>::empty());
    }
    while i < steps.len()
        invariant
            i <= steps@.len(),
            out@ == joined(steps.deep_view().take(i as int)),
        decreases steps@.len() - i,
    {
        let ghost done = steps.deep_view().take(i as int);
        let ghost step = steps.deep_view()[i as int];
        if i > 0 {
            out.append(" ");
        }
        match &steps[i] {
            ResolutionStep::Known { label, token } => {
                out.append(label.as_str());
                out.append("(");
                out.append(token.as_str());
                out.append(")");
            },
            ResolutionStep::Unknown { token } => {
                out.append(token.as_str());
            },
        }
        proof {
            lemma_joined_push(done, step);
            assert(done.push(step) =~= steps.deep_view().take(i + 1));
            if i == 0 {
                assert(out@ =~= render_step(step));
            } else {
                assert(out@ =~= joined(done) + " "@ + render_step(step));
            }
        }
        i = i + 1;
    }
    out.append("\n");
    proof {
        assert(steps.deep_view().take(steps@.len() as int) =~= steps.deep_view());
    }
    out
}

} // verus!
