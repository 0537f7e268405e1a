//! What an agent is asked to do.
use crate::ambient::{earlier, fresh_id, rfc3339_text, to_rfc3339, Timestamp};
use crate::text::{
    begins, copy_strings, lemma_shows, lemma_shows_itself, lemma_views_push, owned, shows, views,
};
use vstd::prelude::*;

verus! {

/// How far a goal has come.
#[derive(Debug, Clone, Copy, PartialEq, Eq, Structural)]
pub enum GoalStatus {
    /// Accepted but not yet started.
    Pending,
    /// Being worked on.
    Running,
    /// Completed successfully.
    Succeeded,
    /// Given up.
    Failed,
}

/// A high-level objective.
#[derive(Debug)]
pub struct Goal {
    pub id: String,
    /// The objective in natural language.
    pub objective: String,
    pub success_criteria: Vec<String>,
    /// No iteration is started past this point.
    pub deadline: Option<Timestamp>,
    /// References, constraints and the like.
    pub context: Vec<String>,
    pub status: GoalStatus,
}

/// A goal as a mathematical value.
pub struct GoalView {
    pub id: Seq<char>,
    pub objective: Seq<char>,
    pub success_criteria: Seq<Seq<char>>,
    pub deadline: Option<Timestamp>,
    pub context: Seq<Seq<char>>,
    pub status: GoalStatus,
}

impl View for Goal {
    type V = GoalView;

    open spec fn view(&self) -> GoalView {
        GoalView {
            id: self.id@,
            objective: self.objective@,
            success_criteria: views(self.success_criteria@),
            deadline: self.deadline,
            context: views(self.context@),
            status: self.status,
        }
    }
}

/// One line per item.
pub open spec fn bullet_list(items: Seq<Seq<char>>) -> Seq<char>
    decreases items.len(),
{
    if items.len() == 0 {
        seq![]
    } else {
        bullet_list(items.drop_last()) + "- "@ + items.last() + "\n"@
    }
}

/// A headed list; nothing where there are no items.
pub open spec fn section(heading: Seq<char>, items: Seq<Seq<char>>) -> Seq<char> {
    if items.len() == 0 {
        seq![]
    } else {
        heading + bullet_list(items)
    }
}

/// A goal as a markdown block.
pub open spec fn goal_block(g: GoalView) -> Seq<char> {
    "# Goal\n"@ + g.objective + "\n"@ + section("\n## Success criteria\n"@, g.success_criteria)
        + section("\n## Context\n"@, g.context) + (match g.deadline {
        Some(d) => "\n## Deadline\n"@ + rfc3339_text(d) + "\n"@,
        None => seq![],
    })
}

/// Whether a goal's deadline has passed.
pub open spec fn is_overdue(g: GoalView, now: Timestamp) -> bool {
    g.deadline matches Some(d) && earlier(d, now)
}

fn list_items(items: &Vec<String>) -> (r: String)
    ensures
        r@ == bullet_list(views(items@)),
{
    let mut s: String = String::new();
    let ghost iv = views(items@);
    proof {
        assert(s@ =~= bullet_list(iv.take(0)));
    }
    for i in 0..items.len()
        invariant
            iv == views(items@),
            s@ == bullet_list(iv.take(i as int)),
    {
        s.append("- ");
        s.append(items[i].as_str());
        s.append("\n");
        proof {
            assert(iv.take(i + 1).drop_last() =~= iv.take(i as int));
            assert(iv.take(i + 1).last() == items@[i as int]@);
        }
    }
    proof {
        assert(iv.take(iv.len() as int) =~= iv);
    }
    s
}

impl Goal {
    /// A pending goal with a fresh identifier.
    pub fn new(objective: &str) -> (r: Goal)
        ensures
            r@ == (GoalView {
                id: r@.id,
                objective: objective@,
                success_criteria: Seq::empty(),
                deadline: None,
                context: Seq::empty(),
                status: GoalStatus::Pending,
            }),
            r@.id.len() == 36,
    {
        let r = Goal {
            id: fresh_id(),
            objective: owned(objective),
            success_criteria: Vec::new(),
            deadline: None,
            context: Vec::new(),
            status: GoalStatus::Pending,
        };
        proof {
            assert(r@.success_criteria =~= Seq::empty());
            assert(r@.context =~= Seq::empty());
        }
        r
    }

    /// Adds a success criterion.
    pub fn with_criterion(self, criterion: &str) -> (r: Goal)
        ensures
            r@ == (GoalView {
                success_criteria: self@.success_criteria.push(criterion@),
                ..self@
            }),
    {
        let mut g: Goal = self;
        let s: String = owned(criterion);
        proof {
            lemma_views_push(g.success_criteria@, s);
        }
        g.success_criteria.push(s);
        g
    }

    /// Adds a piece of context.
    pub fn with_context(self, ctx: &str) -> (r: Goal)
        ensures
            r@ == (GoalView { context: self@.context.push(ctx@), ..self@ }),
    {
        let mut g: Goal = self;
        let s: String = owned(ctx);
        proof {
            lemma_views_push(g.context@, s);
        }
        g.context.push(s);
        g
    }

    /// Sets the deadline.
    pub fn with_deadline(self, deadline: Timestamp) -> (r: Goal)
        ensures
            r@ == (GoalView { deadline: Some(deadline), ..self@ }),
    {
        let mut g: Goal = self;
        g.deadline = Some(deadline);
        g
    }

    /// Renders the goal as a markdown block for the system prompt.
    pub fn to_prompt_block(&self) -> (r: String)
        ensures
            r@ == goal_block(self@),
    {
        let mut out: String = owned("# Goal\n");
        out.append(self.objective.as_str());
        out.append("\n");
        if self.success_criteria.len() > 0 {
            out.append("\n## Success criteria\n");
            out.append(list_items(&self.success_criteria).as_str());
        }
        if self.context.len() > 0 {
            out.append("\n## Context\n");
            out.append(list_items(&self.context).as_str());
        }
        match self.deadline {
            Some(d) => {
                out.append("\n## Deadline\n");
                out.append(to_rfc3339(d).as_str());
                out.append("\n");
            },
            None => {},
        }
        proof {
            assert(views(self.success_criteria@).len() == self.success_criteria@.len());
            assert(views(self.context@).len() == self.context@.len());
            assert(out@ =~= goal_block(self@));
        }
        out
    }

    /// Whether the deadline has passed.
    pub fn overdue(&self, now: Timestamp) -> (r: bool)
        ensures
            r == is_overdue(self@, now),
    {
        match self.deadline {
            Some(d) => d.before(&now),
            None => false,
        }
    }
}

impl Clone for Goal {
    fn clone(&self) -> (r: Goal)
        ensures
            r@ == self@,
    {
        Goal {
            id: self.id.clone(),
            objective: self.objective.clone(),
            success_criteria: copy_strings(&self.success_criteria),
            deadline: self.deadline,
            context: copy_strings(&self.context),
            status: self.status,
        }
    }
}

/// A goal is overdue only past its deadline, and stays so; a goal without
/// one never is.
pub proof fn law_overdue_past_the_deadline(g: GoalView, now: Timestamp, later: Timestamp)
    requires
        !earlier(later, now),
    ensures
        is_overdue(g, now) ==> is_overdue(g, later),
        g.deadline is None ==> !is_overdue(g, now),
        g.deadline == Some(now) ==> !is_overdue(g, now),
        g.deadline matches Some(d) ==> (now.secs > d.secs ==> is_overdue(g, now)) && (now.secs
            < d.secs ==> !is_overdue(g, now)),
{
}

proof fn lemma_item_shown(items: Seq<Seq<char>>, i: int)
    requires
        0 <= i < items.len(),
    ensures
        shows(bullet_list(items), "- "@ + items[i] + "\n"@),
    decreases items.len(),
{
    let line = "- "@ + items[i] + "\n"@;
    let before = bullet_list(items.drop_last());
    let last = "- "@ + items.last() + "\n"@;
    assert(bullet_list(items) =~= before + last + Seq::empty());
    if i == items.len() - 1 {
        lemma_shows_itself(last);
        lemma_shows(before, last, Seq::empty(), line);
    } else {
        lemma_item_shown(items.drop_last(), i);
        lemma_shows(Seq::empty(), before, last, line);
        assert(Seq::<char>::empty() + before + last =~= bullet_list(items));
    }
}

/// The block for the prompt begins with the objective and shows every
/// criterion and every piece of context on a line of its own, and the
/// deadline where there is one.
pub proof fn law_block_shows_the_goal(g: GoalView)
    ensures
        begins(goal_block(g), "# Goal\n"@ + g.objective + "\n"@),
        forall|i: int|
            0 <= i < g.success_criteria.len() ==> shows(
                goal_block(g),
                "- "@ + #[trigger] g.success_criteria[i] + "\n"@,
            ),
        forall|i: int|
            0 <= i < g.context.len() ==> shows(
                goal_block(g),
                "- "@ + #[trigger] g.context[i] + "\n"@,
            ),
        g.success_criteria.len() > 0 ==> shows(goal_block(g), "\n## Success criteria\n"@),
        g.context.len() > 0 ==> shows(goal_block(g), "\n## Context\n"@),
        g.deadline matches Some(d) ==> shows(goal_block(g), rfc3339_text(d)),
        g.success_criteria.len() == 0 && g.context.len() == 0 && g.deadline is None ==> goal_block(g)
            == "# Goal\n"@ + g.objective + "\n"@,
{
    let a = "# Goal\n"@ + g.objective + "\n"@;
    let b = section("\n## Success criteria\n"@, g.success_criteria);
    let c = section("\n## Context\n"@, g.context);
    let d = match g.deadline {
        Some(d) => "\n## Deadline\n"@ + rfc3339_text(d) + "\n"@,
        None => seq![],
    };
    let all = goal_block(g);
    assert(all.take(a.len() as int) =~= a);
    assert(all =~= a + b + (c + d));
    assert(all =~= (a + b) + c + d);
    assert(all =~= (a + b + c) + d + Seq::empty());
    assert forall|i: int| 0 <= i < g.success_criteria.len() implies shows(
        all,
        "- "@ + #[trigger] g.success_criteria[i] + "\n"@,
    ) by {
        let line = "- "@ + g.success_criteria[i] + "\n"@;
        lemma_item_shown(g.success_criteria, i);
        let l = bullet_list(g.success_criteria);
        lemma_shows("\n## Success criteria\n"@, l, Seq::empty(), line);
        assert("\n## Success criteria\n"@ + l + Seq::empty() =~= b);
        lemma_shows(a, b, c + d, line);
    }
    assert forall|i: int| 0 <= i < g.context.len() implies shows(
        all,
        "- "@ + #[trigger] g.context[i] + "\n"@,
    ) by {
        let line = "- "@ + g.context[i] + "\n"@;
        lemma_item_shown(g.context, i);
        let l = bullet_list(g.context);
        lemma_shows("\n## Context\n"@, l, Seq::empty(), line);
        assert("\n## Context\n"@ + l + Seq::empty() =~= c);
        lemma_shows(a + b, c, d, line);
    }
    if g.success_criteria.len() > 0 {
        let h = "\n## Success criteria\n"@;
        lemma_shows_itself(h);
        lemma_shows(Seq::empty(), h, bullet_list(g.success_criteria), h);
        assert(Seq::<char>::empty() + h + bullet_list(g.success_criteria) =~= b);
        lemma_shows(a, b, c + d, h);
    }
    if g.context.len() > 0 {
        let h = "\n## Context\n"@;
        lemma_shows_itself(h);
        lemma_shows(Seq::empty(), h, bullet_list(g.context), h);
        assert(Seq::<char>::empty() + h + bullet_list(g.context) =~= c);
        lemma_shows(a + b, c, d, h);
    }
    if g.deadline is Some {
        let t = rfc3339_text(g.deadline->0);
        lemma_shows_itself(t);
        lemma_shows("\n## Deadline\n"@, t, "\n"@, t);
        lemma_shows(a + b + c, d, Seq::empty(), t);
    }
    if g.success_criteria.len() == 0 && g.context.len() == 0 && g.deadline is None {
        assert(all =~= a);
    }
}

} // verus!
