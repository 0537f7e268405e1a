//! The roles that an agent can play: a system prompt, suggested tool bundles
//! and a sampling temperature.
use crate::text::{
    ascii_lower, law_ascii_lower, lemma_shows, lemma_shows_itself, owned, same, shows,
    to_ascii_lowercase, views,
};
use vstd::prelude::*;

verus! {

/// A role.
#[derive(Debug, Clone, PartialEq, Eq)]
pub enum Persona {
    /// Domain-neutral problem solver, the default.
    General,
    /// Software engineering.
    Coder,
    /// Open-web research, citation, summarisation.
    Researcher,
    /// Long-form writing and editing.
    Writer,
    /// Data exploration and computation.
    Analyst,
    /// Desktop and browser operation.
    Operator,
    /// A role that the user defines.
    Custom(String),
}

/// A role as a mathematical value.
pub enum Role {
    General,
    Coder,
    Researcher,
    Writer,
    Analyst,
    Operator,
    Custom(Seq<char>),
}

impl View for Persona {
    type V = Role;

    open spec fn view(&self) -> Role {
        match self {
            Persona::General => Role::General,
            Persona::Coder => Role::Coder,
            Persona::Researcher => Role::Researcher,
            Persona::Writer => Role::Writer,
            Persona::Analyst => Role::Analyst,
            Persona::Operator => Role::Operator,
            Persona::Custom(s) => Role::Custom(s@),
        }
    }
}

/// The short name of a role, as it is written in commands and files.
pub open spec fn role_slug(p: Role) -> Seq<char> {
    match p {
        Role::General => "general"@,
        Role::Coder => "coder"@,
        Role::Researcher => "researcher"@,
        Role::Writer => "writer"@,
        Role::Analyst => "analyst"@,
        Role::Operator => "operator"@,
        Role::Custom(s) => s,
    }
}

/// The role of a short name, in whatever case it is written; an unknown name
/// is a custom role.
pub open spec fn role_of(s: Seq<char>) -> Role {
    let l = ascii_lower(s);
    if l == "general"@ || l == "default"@ {
        Role::General
    } else if l == "coder"@ || l == "coding"@ || l == "code"@ {
        Role::Coder
    } else if l == "researcher"@ || l == "research"@ {
        Role::Researcher
    } else if l == "writer"@ || l == "writing"@ {
        Role::Writer
    } else if l == "analyst"@ || l == "analysis"@ || l == "data"@ {
        Role::Analyst
    } else if l == "operator"@ || l == "computer"@ || l == "desktop"@ {
        Role::Operator
    } else {
        Role::Custom(l)
    }
}

/// What a role brings along.
#[derive(Debug, Clone)]
pub struct PersonaProfile {
    pub name: String,
    /// The role's part of the system prompt.
    pub system_prompt: String,
    /// Suggested tool bundles.
    pub bundles: Vec<String>,
    /// Default sampling temperature, in billionths.
    pub temperature: u64,
}

/// A profile as a mathematical value.
pub struct Profile {
    pub name: Seq<char>,
    pub system_prompt: Seq<char>,
    pub bundles: Seq<Seq<char>>,
    pub temperature: u64,
}

impl View for PersonaProfile {
    type V = Profile;

    open spec fn view(&self) -> Profile {
        Profile {
            name: self.name@,
            system_prompt: self.system_prompt@,
            bundles: views(self.bundles@),
            temperature: self.temperature,
        }
    }
}

/// The profile of a role; that of a custom role is generic.
pub open spec fn profile_of(p: Role) -> Profile {
    match p {
        Role::General => Profile {
            name: "General"@,
            system_prompt: "You are AgentRust — a careful, domain-agnostic agent. Decompose the user's goal, choose the smallest useful tool for each step, verify intermediate results before trusting them, and report progress in plain language. If the goal is ambiguous, ask one focused clarifying question rather than guessing."@,
            bundles: seq!["knowledge"@, "coding"@],
            temperature: 500_000_000,
        },
        Role::Coder => Profile {
            name: "Coder"@,
            system_prompt: "You are a senior software engineer. Read code before editing it. Prefer surgical edits to rewrites. After non-trivial changes, run the relevant tests or a compile check. Cite file paths and line numbers when explaining changes."@,
            bundles: seq!["coding"@, "knowledge"@],
            temperature: 300_000_000,
        },
        Role::Researcher => Profile {
            name: "Researcher"@,
            system_prompt: "You are a research assistant. For factual claims cite a source (URL, file path, or document title). Distinguish between what your sources say and what you infer. When sources disagree, say so explicitly. Prefer primary sources."@,
            bundles: seq!["knowledge"@, "web"@],
            temperature: 400_000_000,
        },
        Role::Writer => Profile {
            name: "Writer"@,
            system_prompt: "You are a writing partner. Match the requested register, audience, and length. Prefer concrete nouns and verbs. Avoid filler. Offer one revision pass after the first draft is complete."@,
            bundles: seq!["knowledge"@],
            temperature: 700_000_000,
        },
        Role::Analyst => Profile {
            name: "Analyst"@,
            system_prompt: "You are a data analyst. State assumptions before computing. Show your work in small reproducible steps. Caveat conclusions with sample size, selection effects, or missing data when relevant."@,
            bundles: seq!["coding"@, "knowledge"@],
            temperature: 300_000_000,
        },
        Role::Operator => Profile {
            name: "Operator"@,
            system_prompt: "You are an operator agent driving the user's desktop / browser. Take a screenshot before acting. Confirm the action took effect before chaining the next step. Never type credentials or submit irreversible forms without explicit user approval."@,
            bundles: seq!["desktop"@, "web"@],
            temperature: 200_000_000,
        },
        Role::Custom(n) => Profile {
            name: n,
            system_prompt: "You are the `"@ + n
                + "` agent. The user will provide specifics in the goal block."@,
            bundles: seq!["knowledge"@],
            temperature: 500_000_000,
        },
    }
}

fn one(a: &str) -> (r: Vec<String>)
    ensures
        views(r@) == seq![a@],
{
    let mut v: Vec<String> = Vec::new();
    v.push(owned(a));
    proof {
        assert(views(v@) =~= seq![a@]);
    }
    v
}

fn two(a: &str, b: &str) -> (r: Vec<String>)
    ensures
        views(r@) == seq![a@, b@],
{
    let mut v: Vec<String> = Vec::new();
    v.push(owned(a));
    v.push(owned(b));
    proof {
        assert(views(v@) =~= seq![a@, b@]);
    }
    v
}

impl Persona {
    /// The short name, as it is written in commands and files.
    pub fn slug(&self) -> (r: &str)
        ensures
            r@ == role_slug(self@),
    {
        match self {
            Persona::General => "general",
            Persona::Coder => "coder",
            Persona::Researcher => "researcher",
            Persona::Writer => "writer",
            Persona::Analyst => "analyst",
            Persona::Operator => "operator",
            Persona::Custom(s) => s.as_str(),
        }
    }

    /// The role of a short name. Unknown names become custom roles.
    pub fn from_slug(s: &str) -> (r: Persona)
        ensures
            r@ == role_of(s@),
    {
        let lower: String = to_ascii_lowercase(s);
        let l: &str = lower.as_str();
        if same(l, "general") || same(l, "default") {
            Persona::General
        } else if same(l, "coder") || same(l, "coding") || same(l, "code") {
            Persona::Coder
        } else if same(l, "researcher") || same(l, "research") {
            Persona::Researcher
        } else if same(l, "writer") || same(l, "writing") {
            Persona::Writer
        } else if same(l, "analyst") || same(l, "analysis") || same(l, "data") {
            Persona::Analyst
        } else if same(l, "operator") || same(l, "computer") || same(l, "desktop") {
            Persona::Operator
        } else {
            Persona::Custom(lower)
        }
    }

    /// The profile of the role, without one that the user supplies.
    pub fn profile(&self) -> (r: PersonaProfile)
        ensures
            r@ == profile_of(self@),
    {
        match self {
            Persona::General => PersonaProfile {
                name: owned("General"),
                system_prompt: owned("You are AgentRust — a careful, domain-agnostic agent. Decompose the user's goal, choose the smallest useful tool for each step, verify intermediate results before trusting them, and report progress in plain language. If the goal is ambiguous, ask one focused clarifying question rather than guessing."),
                bundles: two("knowledge", "coding"),
                temperature: 500_000_000,
            },
            Persona::Coder => PersonaProfile {
                name: owned("Coder"),
                system_prompt: owned("You are a senior software engineer. Read code before editing it. Prefer surgical edits to rewrites. After non-trivial changes, run the relevant tests or a compile check. Cite file paths and line numbers when explaining changes."),
                bundles: two("coding", "knowledge"),
                temperature: 300_000_000,
            },
            Persona::Researcher => PersonaProfile {
                name: owned("Researcher"),
                system_prompt: owned("You are a research assistant. For factual claims cite a source (URL, file path, or document title). Distinguish between what your sources say and what you infer. When sources disagree, say so explicitly. Prefer primary sources."),
                bundles: two("knowledge", "web"),
                temperature: 400_000_000,
            },
            Persona::Writer => PersonaProfile {
                name: owned("Writer"),
                system_prompt: owned("You are a writing partner. Match the requested register, audience, and length. Prefer concrete nouns and verbs. Avoid filler. Offer one revision pass after the first draft is complete."),
                bundles: one("knowledge"),
                temperature: 700_000_000,
            },
            Persona::Analyst => PersonaProfile {
                name: owned("Analyst"),
                system_prompt: owned("You are a data analyst. State assumptions before computing. Show your work in small reproducible steps. Caveat conclusions with sample size, selection effects, or missing data when relevant."),
                bundles: two("coding", "knowledge"),
                temperature: 300_000_000,
            },
            Persona::Operator => PersonaProfile {
                name: owned("Operator"),
                system_prompt: owned("You are an operator agent driving the user's desktop / browser. Take a screenshot before acting. Confirm the action took effect before chaining the next step. Never type credentials or submit irreversible forms without explicit user approval."),
                bundles: two("desktop", "web"),
                temperature: 200_000_000,
            },
            Persona::Custom(name) => {
                let mut prompt: String = owned("You are the `");
                prompt.append(name.as_str());
                prompt.append("` agent. The user will provide specifics in the goal block.");
                PersonaProfile {
                    name: name.clone(),
                    system_prompt: prompt,
                    bundles: one("knowledge"),
                    temperature: 500_000_000,
                }
            },
        }
    }

    /// The profile of the role; a custom role takes the one that the user
    /// supplies, where there is one.
    pub fn profile_or(&self, supplied: Option<PersonaProfile>) -> (r: PersonaProfile)
        ensures
            r@ == (match (self@, supplied) {
                (Role::Custom(_), Some(p)) => p@,
                _ => profile_of(self@),
            }),
    {
        match (self, supplied) {
            (Persona::Custom(_), Some(p)) => p,
            _ => self.profile(),
        }
    }
}

impl Default for Persona {
    fn default() -> (r: Persona)
        ensures
            r@ == Role::General,
    {
        Persona::General
    }
}

proof fn lemma_lower_fixed(s: Seq<char>)
    requires
        forall|i: int| 0 <= i < s.len() ==> !('A' <= #[trigger] s[i] <= 'Z'),
    ensures
        ascii_lower(s) == s,
{
    assert(ascii_lower(s) =~= s);
}

/// The short name of a built-in role leads back to it.
pub proof fn law_slug_round_trip(p: Role)
    requires
        !(p is Custom),
    ensures
        role_of(role_slug(p)) == p,
{
    reveal_strlit("analysis");
    reveal_strlit("analyst");
    reveal_strlit("code");
    reveal_strlit("coder");
    reveal_strlit("coding");
    reveal_strlit("computer");
    reveal_strlit("data");
    reveal_strlit("default");
    reveal_strlit("desktop");
    reveal_strlit("general");
    reveal_strlit("operator");
    reveal_strlit("research");
    reveal_strlit("researcher");
    reveal_strlit("writer");
    reveal_strlit("writing");
    assert("analysis"@.len() == 8);
    assert("analyst"@.len() == 7);
    assert("code"@.len() == 4);
    assert("coder"@.len() == 5);
    assert("coding"@.len() == 6);
    assert("computer"@.len() == 8);
    assert("data"@.len() == 4);
    assert("default"@.len() == 7);
    assert("desktop"@.len() == 7);
    assert("general"@.len() == 7);
    assert("operator"@.len() == 8);
    assert("research"@.len() == 8);
    assert("researcher"@.len() == 10);
    assert("writer"@.len() == 6);
    assert("writing"@.len() == 7);
    assert("analysis"@[0] != "computer"@[0]);
    assert("analysis"@[0] != "operator"@[0]);
    assert("analysis"@[0] != "research"@[0]);
    assert("analyst"@[0] != "default"@[0]);
    assert("analyst"@[0] != "desktop"@[0]);
    assert("analyst"@[0] != "general"@[0]);
    assert("analyst"@[0] != "writing"@[0]);
    assert("code"@[0] != "data"@[0]);
    assert("coding"@[0] != "writer"@[0]);
    assert("computer"@[0] != "operator"@[0]);
    assert("computer"@[0] != "research"@[0]);
    assert("default"@[2] != "desktop"@[2]);
    assert("default"@[0] != "general"@[0]);
    assert("default"@[0] != "writing"@[0]);
    assert("desktop"@[0] != "general"@[0]);
    assert("desktop"@[0] != "writing"@[0]);
    assert("general"@[0] != "writing"@[0]);
    assert("operator"@[0] != "research"@[0]);
    lemma_lower_fixed("general"@);
    lemma_lower_fixed("coder"@);
    lemma_lower_fixed("researcher"@);
    lemma_lower_fixed("writer"@);
    lemma_lower_fixed("analyst"@);
    lemma_lower_fixed("operator"@);
}

/// The case of a short name does not matter, and a name of no built-in role
/// is a custom role of that name.
pub proof fn law_names_ignore_case(s: Seq<char>)
    ensures
        role_of(ascii_lower(s)) == role_of(s),
        role_of(s) matches Role::Custom(n) ==> n == ascii_lower(s),
        role_slug(Role::Custom(s)) == s,
{
    law_ascii_lower(s);
}

/// A built-in role has a profile of its own name; a custom one is named by
/// its own name, which its prompt shows. Every role has a bundle of tools,
/// and a temperature of at most one.
pub proof fn law_profiles_fit_their_roles(p: Role)
    ensures
        !(p is Custom) ==> role_of(profile_of(p).name) == p,
        p matches Role::Custom(n) ==> profile_of(p).name == n && shows(
            profile_of(p).system_prompt,
            n,
        ),
        profile_of(p).bundles.len() > 0,
        0 < profile_of(p).temperature <= 1_000_000_000,
        profile_of(Role::Operator).temperature < profile_of(Role::Coder).temperature,
        profile_of(Role::Coder).temperature == profile_of(Role::Analyst).temperature,
        profile_of(Role::Analyst).temperature < profile_of(Role::Researcher).temperature,
        profile_of(Role::Researcher).temperature < profile_of(Role::General).temperature,
        profile_of(Role::General).temperature < profile_of(Role::Writer).temperature,
{
    match p {
        Role::Custom(n) => {
            lemma_shows_itself(n);
            lemma_shows(
                "You are the `"@,
                n,
                "` agent. The user will provide specifics in the goal block."@,
                n,
            );
        },
        Role::General => {
            reveal_strlit("General");
            reveal_strlit("general");
            assert(ascii_lower("General"@) =~= "general"@);
            law_names_ignore_case("General"@);
            law_slug_round_trip(p);
        },
        Role::Coder => {
            reveal_strlit("Coder");
            reveal_strlit("coder");
            assert(ascii_lower("Coder"@) =~= "coder"@);
            law_names_ignore_case("Coder"@);
            law_slug_round_trip(p);
        },
        Role::Researcher => {
            reveal_strlit("Researcher");
            reveal_strlit("researcher");
            assert(ascii_lower("Researcher"@) =~= "researcher"@);
            law_names_ignore_case("Researcher"@);
            law_slug_round_trip(p);
        },
        Role::Writer => {
            reveal_strlit("Writer");
            reveal_strlit("writer");
            assert(ascii_lower("Writer"@) =~= "writer"@);
            law_names_ignore_case("Writer"@);
            law_slug_round_trip(p);
        },
        Role::Analyst => {
            reveal_strlit("Analyst");
            reveal_strlit("analyst");
            assert(ascii_lower("Analyst"@) =~= "analyst"@);
            law_names_ignore_case("Analyst"@);
            law_slug_round_trip(p);
        },
        Role::Operator => {
            reveal_strlit("Operator");
            reveal_strlit("operator");
            assert(ascii_lower("Operator"@) =~= "operator"@);
            law_names_ignore_case("Operator"@);
            law_slug_round_trip(p);
        },
    }
}

} // verus!
