//! State and action representation.

use vstd::prelude::*;

verus! {

/// Per-agent bijection between game action ids and network-head indices. Both maps are pure
/// functions of the action and the agent.
pub trait ActionView {
    open spec fn spec_head_index(&self, action: usize, agent: usize) -> usize {
        arbitrary()
    }

    fn head_index(&self, action: usize, agent: usize) -> (r: usize)
        ensures
            r == self.spec_head_index(action, agent),
    ;

    open spec fn spec_game_action(&self, head: usize, agent: usize) -> usize {
        arbitrary()
    }

    /// Inverse of [`head_index`](Self::head_index).
    fn game_action(&self, head: usize, agent: usize) -> (r: usize)
        ensures
            r == self.spec_game_action(head, agent),
    ;
}

/// Identity mapping between game and network action frames.
pub struct IdentityView;

impl ActionView for IdentityView {
    open spec fn spec_head_index(&self, action: usize, agent: usize) -> usize {
        action
    }

    fn head_index(&self, action: usize, agent: usize) -> (r: usize) {
        action
    }

    open spec fn spec_game_action(&self, head: usize, agent: usize) -> usize {
        head
    }

    fn game_action(&self, head: usize, agent: usize) -> (r: usize) {
        head
    }
}

/// `perm[action] = head` for `agent`.
pub open spec fn spec_head_permutation<V: ActionView>(
    view: V,
    action_count: usize,
    agent: usize,
) -> Seq<usize> {
    Seq::new(action_count as nat, |a: int| view.spec_head_index(a as usize, agent))
}

/// Whether a permutation moves nothing.
pub open spec fn is_identity(perm: Seq<usize>) -> bool {
    forall|i: int| 0 <= i < perm.len() ==> #[trigger] perm[i] == i
}

/// Materializes `perm[action] = head` and tells whether it is the identity.
pub fn head_permutation<V: ActionView>(view: &V, action_count: usize, agent: usize) -> (r: (
    Vec<usize>,
    bool,
))
    ensures
        r.0@ == spec_head_permutation(*view, action_count, agent),
        r.1 == is_identity(r.0@),
{
    let mut perm: Vec<usize> = Vec::new();
    let mut identity = true;
    let mut a: usize = 0;
    while a < action_count
        invariant
            a <= action_count,
            perm@ == spec_head_permutation(*view, a, agent),
            identity == is_identity(perm@),
        decreases action_count - a,
    {
        let h = view.head_index(a, agent);
        let ghost before = perm@;
        perm.push(h);
        proof {
            assert(perm@ =~= spec_head_permutation(*view, (a + 1) as usize, agent));
            if is_identity(perm@) {
                assert forall|i: int| 0 <= i < before.len() implies #[trigger] before[i] == i by {
                    assert(perm@[i] == i);
                }
                assert(perm@[a as int] == a);
            }
        }
        if h != a {
            identity = false;
        }
        a = a + 1;
    }
    (perm, identity)
}

/// Per-agent head permutations, built once.
pub struct PermTable {
    perms: Vec<(Vec<usize>, bool)>,
}

impl View for PermTable {
    type V = Seq<Seq<usize>>;

    closed spec fn view(&self) -> Seq<Seq<usize>> {
        self.perms@.map_values(|p: (Vec<usize>, bool)| p.0@)
    }
}

/// The head permutation of every agent.
pub open spec fn spec_perms<V: ActionView>(
    view: V,
    action_count: usize,
    num_agents: usize,
) -> Seq<Seq<usize>> {
    Seq::new(
        num_agents as nat,
        |agent: int| spec_head_permutation(view, action_count, agent as usize),
    )
}

impl PermTable {
    /// The identity marks are those of the permutations.
    pub closed spec fn wf(self) -> bool {
        forall|i: int|
            0 <= i < self.perms@.len() ==> (#[trigger] self.perms@[i]).1 == is_identity(
                self.perms@[i].0@,
            )
    }

    pub fn build<V: ActionView>(view: &V, action_count: usize, num_agents: usize) -> (r: Self)
        ensures
            r.wf(),
            r@ == spec_perms(*view, action_count, num_agents),
    {
        let mut perms: Vec<(Vec<usize>, bool)> = Vec::new();
        let mut agent: usize = 0;
        while agent < num_agents
            invariant
                agent <= num_agents,
                perms@.len() == agent,
                forall|i: int|
                    0 <= i < agent ==> (#[trigger] perms@[i]).0@ == spec_head_permutation(
                        *view,
                        action_count,
                        i as usize,
                    ) && perms@[i].1 == is_identity(perms@[i].0@),
            decreases num_agents - agent,
        {
            perms.push(head_permutation(view, action_count, agent));
            agent = agent + 1;
        }
        let r = PermTable { perms };
        assert(r@ =~= spec_perms(*view, action_count, num_agents));
        r
    }

    /// How many agents have a permutation.
    pub fn agents(&self) -> (r: usize)
        ensures
            r == self@.len(),
    {
        self.perms.len()
    }

    /// The permutation of `agent`, and whether it is the identity.
    pub fn get(&self, agent: usize) -> (r: (&[usize], bool))
        requires
            self.wf(),
            agent < self@.len(),
        ensures
            r.0@ == self@[agent as int],
            r.1 == is_identity(r.0@),
    {
        let p = &self.perms[agent];
        (p.0.as_slice(), p.1)
    }
}

/// What is wrong with an action view, at the first offence.
#[derive(Clone, Copy, Debug, PartialEq, Eq, Structural)]
pub enum ViewFault {
    /// `head_index` left the action range.
    OutOfRange { action: usize, agent: usize, head: usize },
    /// Two actions share a head.
    NotInjective { agent: usize, head: usize },
    /// `game_action` does not undo `head_index`.
    NotInverse { action: usize, agent: usize },
}

/// Whether some action before `a` has the head that `a` has.
pub open spec fn head_taken<V: ActionView>(view: V, a: usize, agent: usize) -> bool {
    exists|b: usize|
        b < a && #[trigger] view.spec_head_index(b, agent) == view.spec_head_index(a, agent)
}

/// What `a` adds to the offences of `agent`.
pub open spec fn action_fault<V: ActionView>(
    view: V,
    action_count: usize,
    a: usize,
    agent: usize,
) -> Option<ViewFault> {
    let h = view.spec_head_index(a, agent);
    if h >= action_count {
        Some(ViewFault::OutOfRange { action: a, agent, head: h })
    } else if head_taken(view, a, agent) {
        Some(ViewFault::NotInjective { agent, head: h })
    } else if view.spec_game_action(h, agent) != a {
        Some(ViewFault::NotInverse { action: a, agent })
    } else {
        None
    }
}

/// No action of no agent offends.
pub open spec fn view_sound<V: ActionView>(view: V, action_count: usize, num_agents: usize) -> bool {
    forall|agent: usize, a: usize|
        agent < num_agents && a < action_count ==> #[trigger] action_fault(
            view,
            action_count,
            a,
            agent,
        ) is None
}

/// `(agent, a)` is the first offence, agent by agent.
pub open spec fn first_fault<V: ActionView>(
    view: V,
    action_count: usize,
    num_agents: usize,
    agent: usize,
    a: usize,
) -> bool {
    &&& agent < num_agents
    &&& a < action_count
    &&& action_fault(view, action_count, a, agent) is Some
    &&& forall|g: usize, b: usize|
        b < action_count && (g < agent || (g == agent && b < a)) ==> #[trigger] action_fault(
            view,
            action_count,
            b,
            g,
        ) is None
}

/// Checks that each agent's action mapping is bijective and invertible; the error names the
/// first offence.
pub fn check_action_view<V: ActionView>(
    view: &V,
    action_count: usize,
    num_agents: usize,
) -> (r: Result<(), ViewFault>)
    ensures
        r is Ok <==> view_sound(*view, action_count, num_agents),
        r matches Err(f) ==> exists|agent: usize, a: usize|
            #[trigger] first_fault(*view, action_count, num_agents, agent, a) && f
                == action_fault(*view, action_count, a, agent)->0,
{
    let mut agent: usize = 0;
    while agent < num_agents
        invariant
            agent <= num_agents,
            forall|g: usize, b: usize|
                g < agent && b < action_count ==> #[trigger] action_fault(
                    *view,
                    action_count,
                    b,
                    g,
                ) is None,
        decreases num_agents - agent,
    {
        let mut seen: Vec<bool> = crate::util::filled(false, action_count);
        let mut a: usize = 0;
        while a < action_count
            invariant
                agent < num_agents,
                a <= action_count,
                seen@.len() == action_count,
                forall|g: usize, b: usize|
                    b < action_count && (g < agent || (g == agent && b < a))
                        ==> #[trigger] action_fault(*view, action_count, b, g) is None,
                forall|h: int|
                    0 <= h < action_count ==> (#[trigger] seen@[h] <==> exists|b: usize|
                        b < a && #[trigger] view.spec_head_index(b, agent) == h),
            decreases action_count - a,
        {
            let h = view.head_index(a, agent);
            if h >= action_count {
                assert(first_fault(*view, action_count, num_agents, agent, a));
                return Err(ViewFault::OutOfRange { action: a, agent, head: h });
            }
            if seen[h] {
                assert(head_taken(*view, a, agent));
                assert(first_fault(*view, action_count, num_agents, agent, a));
                return Err(ViewFault::NotInjective { agent, head: h });
            }
            assert(!head_taken(*view, a, agent));
            seen.set(h, true);
            if view.game_action(h, agent) != a {
                assert(first_fault(*view, action_count, num_agents, agent, a));
                return Err(ViewFault::NotInverse { action: a, agent });
            }
            assert(action_fault(*view, action_count, a, agent) is None);
            assert forall|k: int| 0 <= k < action_count implies (#[trigger] seen@[k] <==> exists|
                b: usize,
            |
                b < a + 1 && #[trigger] view.spec_head_index(b, agent) == k) by {
                if k == h {
                    assert(view.spec_head_index(a, agent) == k);
                } else if exists|b: usize|
                    b < a + 1 && #[trigger] view.spec_head_index(b, agent) == k {
                    let b = choose|b: usize|
                        b < a + 1 && #[trigger] view.spec_head_index(b, agent) == k;
                    assert(b < a && view.spec_head_index(b, agent) == k);
                } else if seen@[k] {
                    let b = choose|b: usize|
                        b < a && #[trigger] view.spec_head_index(b, agent) == k;
                    assert(b < a + 1 && view.spec_head_index(b, agent) == k);
                }
            }
            a = a + 1;
        }
        agent = agent + 1;
    }
    Ok(())
}

/// A sound view is a bijection on the action range of each agent, undone by `game_action`.
pub proof fn law_sound_view<V: ActionView>(
    view: V,
    action_count: usize,
    num_agents: usize,
    agent: usize,
    a: usize,
    b: usize,
)
    requires
        view_sound(view, action_count, num_agents),
        agent < num_agents,
        a < action_count,
        b < action_count,
    ensures
        view.spec_head_index(a, agent) < action_count,
        view.spec_game_action(view.spec_head_index(a, agent), agent) == a,
        view.spec_head_index(a, agent) == view.spec_head_index(b, agent) ==> a == b,
{
    assert(action_fault(view, action_count, a, agent) is None);
    assert(action_fault(view, action_count, b, agent) is None);
}

/// A sound view leaves no head out: every head is that of some action.
pub proof fn law_sound_view_hits_every_head<V: ActionView>(
    view: V,
    action_count: usize,
    num_agents: usize,
    agent: usize,
    head: usize,
)
    requires
        view_sound(view, action_count, num_agents),
        agent < num_agents,
        head < action_count,
    ensures
        exists|a: usize| a < action_count && #[trigger] view.spec_head_index(a, agent) == head,
{
    let hits = Seq::new(
        action_count as nat,
        |a: int| view.spec_head_index(a as usize, agent) as int,
    );
    assert forall|i: int, j: int| 0 <= i < hits.len() && 0 <= j < hits.len() && i != j implies hits[i]
        != hits[j] by {
        law_sound_view(view, action_count, num_agents, agent, i as usize, j as usize);
    }
    assert(hits.no_duplicates());
    hits.unique_seq_to_set();
    let all = vstd::set_lib::set_int_range(0, action_count as int);
    vstd::set_lib::lemma_int_range(0, action_count as int);
    assert(hits.to_set().subset_of(all)) by {
        assert forall|x: int| hits.to_set().contains(x) implies all.contains(x) by {
            let i = choose|i: int| 0 <= i < hits.len() && hits[i] == x;
            law_sound_view(view, action_count, num_agents, agent, i as usize, i as usize);
        }
    }
    vstd::set_lib::lemma_subset_equality(hits.to_set(), all);
    assert(hits.to_set().contains(head as int));
    let i = choose|i: int| 0 <= i < hits.len() && hits[i] == head as int;
    assert(view.spec_head_index(i as usize, agent) == head);
}

/// The identity view is sound at every size.
pub proof fn law_identity_view(action_count: usize, num_agents: usize)
    ensures
        view_sound(IdentityView, action_count, num_agents),
{
}

/// How states are observed. An observation is a flat, channel-major row of features.
pub trait StateEncoder: ActionView {
    type State;

    type Feature: Copy;

    /// The observation of `state` for `agent`.
    open spec fn spec_encode(&self, state: Self::State, agent: usize) -> Seq<Self::Feature> {
        arbitrary()
    }

    /// Flat channel-major observation for `agent`.
    fn encode(&self, state: &Self::State, agent: usize) -> (r: Vec<Self::Feature>)
        ensures
            r@ == self.spec_encode(*state, agent),
    ;

    open spec fn spec_obs_shape(&self) -> (usize, usize, usize) {
        arbitrary()
    }

    /// Observation shape `(channels, height, width)`.
    fn obs_shape(&self) -> (r: (usize, usize, usize))
        ensures
            r == self.spec_obs_shape(),
    ;
}

} // verus!
