//! Petri nets as the translation of process trees produces them: places and
//! transitions numbered in the order in which they were added, arcs between a
//! place and a transition, and one initial and one final place.
use vstd::prelude::*;
use crate::process_tree::{LeafLabel, Node, OperatorType, PTree, ProcessTree};
use crate::process_tree_reduction::{
    check_tau_mandatory_at_final_marking, check_tau_mandatory_at_initial_marking,
    lemma_simplified_loops_have_children, loops_have_children, simplified, simplify_process_tree, tau_at_end,
    tau_at_start,
};

verus! {

/// An arc, by the numbers of its place and its transition.
#[derive(Debug, Clone, Copy, PartialEq, Eq, Structural)]
pub enum ArcType {
    /// From the place to the transition.
    PlaceTransition(usize, usize),
    /// From the transition to the place.
    TransitionPlace(usize, usize),
}

impl ArcType {
    pub fn place_to_transition(place: usize, transition: usize) -> (r: Self)
        ensures
            r == ArcType::PlaceTransition(place, transition),
    {
        ArcType::PlaceTransition(place, transition)
    }

    pub fn transition_to_place(transition: usize, place: usize) -> (r: Self)
        ensures
            r == ArcType::TransitionPlace(transition, place),
    {
        ArcType::TransitionPlace(transition, place)
    }
}

/// A transition: visible with a label, silent without; `present` is false
/// once it has been removed from the net.
#[derive(Debug, Clone)]
pub struct Transition {
    pub label: Option<String>,
    pub present: bool,
}

/// A Petri net. Place `i` belongs to the net while `places[i]` is true; the
/// number of a removed place or transition is never used again.
pub struct PetriNet {
    pub places: Vec<bool>,
    pub transitions: Vec<Transition>,
    pub arcs: Vec<ArcType>,
    pub initial_place: Option<usize>,
    pub final_place: Option<usize>,
}

/// Whether the arc has `p` as its place.
pub open spec fn touches_place(a: ArcType, p: usize) -> bool {
    match a {
        ArcType::PlaceTransition(q, _) => q == p,
        ArcType::TransitionPlace(_, q) => q == p,
    }
}

/// Whether the arc has `t` as its transition.
pub open spec fn touches_transition(a: ArcType, t: usize) -> bool {
    match a {
        ArcType::PlaceTransition(_, u) => u == t,
        ArcType::TransitionPlace(u, _) => u == t,
    }
}

/// The label of a transition as a value: `None` for a silent one.
pub open spec fn label_view(t: Transition) -> Option<Seq<char>> {
    match t.label {
        Some(s) => Some(s@),
        None => None,
    }
}

/// The places with an arc into transition `t`, in the order of the arcs.
pub open spec fn preset_t(arcs: Seq<ArcType>, t: usize) -> Seq<usize>
    decreases arcs.len(),
{
    if arcs.len() == 0 {
        Seq::empty()
    } else {
        let rest = preset_t(arcs.drop_last(), t);
        match arcs.last() {
            ArcType::PlaceTransition(p, u) => if u == t { rest.push(p) } else { rest },
            ArcType::TransitionPlace(_, _) => rest,
        }
    }
}

/// The places with an arc from transition `t`, in the order of the arcs.
pub open spec fn postset_t(arcs: Seq<ArcType>, t: usize) -> Seq<usize>
    decreases arcs.len(),
{
    if arcs.len() == 0 {
        Seq::empty()
    } else {
        let rest = postset_t(arcs.drop_last(), t);
        match arcs.last() {
            ArcType::TransitionPlace(u, p) => if u == t { rest.push(p) } else { rest },
            ArcType::PlaceTransition(_, _) => rest,
        }
    }
}

/// The transitions with an arc into place `p`, in the order of the arcs.
pub open spec fn preset_p(arcs: Seq<ArcType>, p: usize) -> Seq<usize>
    decreases arcs.len(),
{
    if arcs.len() == 0 {
        Seq::empty()
    } else {
        let rest = preset_p(arcs.drop_last(), p);
        match arcs.last() {
            ArcType::TransitionPlace(t, q) => if q == p { rest.push(t) } else { rest },
            ArcType::PlaceTransition(_, _) => rest,
        }
    }
}

/// The transitions with an arc from place `p`, in the order of the arcs.
pub open spec fn postset_p(arcs: Seq<ArcType>, p: usize) -> Seq<usize>
    decreases arcs.len(),
{
    if arcs.len() == 0 {
        Seq::empty()
    } else {
        let rest = postset_p(arcs.drop_last(), p);
        match arcs.last() {
            ArcType::PlaceTransition(q, t) => if q == p { rest.push(t) } else { rest },
            ArcType::TransitionPlace(_, _) => rest,
        }
    }
}

/// The arcs that do not touch place `p`, in their order.
pub open spec fn without_place(arcs: Seq<ArcType>, p: usize) -> Seq<ArcType>
    decreases arcs.len(),
{
    if arcs.len() == 0 {
        Seq::empty()
    } else {
        let rest = without_place(arcs.drop_last(), p);
        if touches_place(arcs.last(), p) { rest } else { rest.push(arcs.last()) }
    }
}

/// The arcs that do not touch transition `t`, in their order.
pub open spec fn without_transition(arcs: Seq<ArcType>, t: usize) -> Seq<ArcType>
    decreases arcs.len(),
{
    if arcs.len() == 0 {
        Seq::empty()
    } else {
        let rest = without_transition(arcs.drop_last(), t);
        if touches_transition(arcs.last(), t) { rest } else { rest.push(arcs.last()) }
    }
}

/// The number of transitions still in the net.
pub open spec fn present_count(ts: Seq<Transition>) -> nat
    decreases ts.len(),
{
    if ts.len() == 0 {
        0
    } else {
        present_count(ts.drop_last()) + if ts.last().present { 1nat } else { 0nat }
    }
}

/// The labels of the visible transitions still in the net, in their order.
pub open spec fn visible_labels(ts: Seq<Transition>) -> Seq<Seq<char>>
    decreases ts.len(),
{
    if ts.len() == 0 {
        Seq::empty()
    } else {
        let rest = visible_labels(ts.drop_last());
        match label_view(ts.last()) {
            Some(l) => if ts.last().present { rest.push(l) } else { rest },
            None => rest,
        }
    }
}

impl PetriNet {
    pub open spec fn has_place(&self, p: int) -> bool {
        0 <= p < self.places@.len() && self.places@[p]
    }

    pub open spec fn has_transition(&self, t: int) -> bool {
        0 <= t < self.transitions@.len() && self.transitions@[t].present
    }

    /// Whether both ends of the arc belong to the net.
    pub open spec fn arc_in_net(&self, a: ArcType) -> bool {
        match a {
            ArcType::PlaceTransition(p, t) => self.has_place(p as int) && self.has_transition(t as int),
            ArcType::TransitionPlace(t, p) => self.has_place(p as int) && self.has_transition(t as int),
        }
    }

    /// Every arc joins a place and a transition of the net, and no arc occurs twice.
    pub open spec fn wf(&self) -> bool {
        &&& forall|i: int| 0 <= i < self.arcs@.len() ==> self.arc_in_net(#[trigger] self.arcs@[i])
        &&& self.arcs@.no_duplicates()
    }

    /// An empty net without markings.
    pub fn new() -> (r: Self)
        ensures
            r.places@.len() == 0,
            r.transitions@.len() == 0,
            r.arcs@.len() == 0,
            r.initial_place.is_none(),
            r.final_place.is_none(),
            r.wf(),
    {
        PetriNet { places: Vec::new(), transitions: Vec::new(), arcs: Vec::new(), initial_place: None, final_place: None }
    }
}

impl PetriNet {
    /// Adds a place and returns its number.
    pub fn add_place(&mut self) -> (p: usize)
        ensures
            p == old(self).places@.len(),
            final(self).places@ == old(self).places@.push(true),
            final(self).transitions@ == old(self).transitions@,
            final(self).arcs@ == old(self).arcs@,
            final(self).initial_place == old(self).initial_place,
            final(self).final_place == old(self).final_place,
            old(self).wf() ==> final(self).wf(),
    {
        let p = self.places.len();
        self.places.push(true);
        proof {
            if old(self).wf() {
                assert forall|i: int| 0 <= i < self.arcs@.len() implies self.arc_in_net(#[trigger] self.arcs@[i]) by {
                    assert(old(self).arc_in_net(old(self).arcs@[i]));
                }
            }
        }
        p
    }

    /// Adds a transition, visible with a label or silent without, and returns its number.
    pub fn add_transition(&mut self, label: Option<String>) -> (t: usize)
        ensures
            t == old(self).transitions@.len(),
            final(self).transitions@ == old(self).transitions@.push(Transition { label, present: true }),
            final(self).places@ == old(self).places@,
            final(self).arcs@ == old(self).arcs@,
            final(self).initial_place == old(self).initial_place,
            final(self).final_place == old(self).final_place,
            old(self).wf() ==> final(self).wf(),
    {
        let t = self.transitions.len();
        self.transitions.push(Transition { label, present: true });
        proof {
            if old(self).wf() {
                assert forall|i: int| 0 <= i < self.arcs@.len() implies self.arc_in_net(#[trigger] self.arcs@[i]) by {
                    assert(old(self).arc_in_net(old(self).arcs@[i]));
                }
            }
        }
        t
    }

    /// Adds the arc unless the net has it already.
    pub fn add_arc(&mut self, a: ArcType)
        ensures
            final(self).arcs@ == if old(self).arcs@.contains(a) { old(self).arcs@ } else { old(self).arcs@.push(a) },
            final(self).places@ == old(self).places@,
            final(self).transitions@ == old(self).transitions@,
            final(self).initial_place == old(self).initial_place,
            final(self).final_place == old(self).final_place,
            old(self).wf() && old(self).arc_in_net(a) ==> final(self).wf(),
    {
        let mut i: usize = 0;
        let mut found = false;
        while i < self.arcs.len()
            invariant
                0 <= i <= self.arcs@.len(),
                *self == *old(self),
                found <==> self.arcs@.take(i as int).contains(a),
            decreases self.arcs@.len() - i,
        {
            proof {
                lemma_take_step(self.arcs@, i as int);
                vstd::seq_lib::lemma_seq_contains_after_push(self.arcs@.take(i as int), self.arcs@[i as int], a);
            }
            if self.arcs[i] == a {
                found = true;
            }
            i += 1;
        }
        assert(self.arcs@.take(i as int) =~= self.arcs@);
        if !found {
            self.arcs.push(a);
            proof {
                if old(self).wf() && old(self).arc_in_net(a) {
                    let s = self.arcs@;
                    assert forall|x: int, y: int| 0 <= x < s.len() && 0 <= y < s.len() && x != y implies s[x] != s[y] by {
                        if x == s.len() - 1 {
                            assert(old(self).arcs@.contains(s[y]));
                        } else if y == s.len() - 1 {
                            assert(old(self).arcs@.contains(s[x]));
                        }
                    }
                    assert forall|k: int| 0 <= k < s.len() implies self.arc_in_net(#[trigger] s[k]) by {
                        if k < s.len() - 1 {
                            assert(old(self).arc_in_net(old(self).arcs@[k]));
                        }
                    }
                }
            }
        }
    }

    /// The places with an arc into transition `t`.
    pub fn preset_of_transition(&self, t: usize) -> (r: Vec<usize>)
        ensures
            r@ == preset_t(self.arcs@, t),
    {
        let mut r: Vec<usize> = Vec::new();
        let mut i: usize = 0;
        while i < self.arcs.len()
            invariant
                0 <= i <= self.arcs@.len(),
                r@ == preset_t(self.arcs@.take(i as int), t),
            decreases self.arcs@.len() - i,
        {
            proof { lemma_take_step(self.arcs@, i as int); }
            match self.arcs[i] {
                ArcType::PlaceTransition(p, u) => if u == t { r.push(p); },
                ArcType::TransitionPlace(_, _) => {},
            }
            i += 1;
        }
        assert(self.arcs@.take(i as int) =~= self.arcs@);
        r
    }

    /// The places with an arc from transition `t`.
    pub fn postset_of_transition(&self, t: usize) -> (r: Vec<usize>)
        ensures
            r@ == postset_t(self.arcs@, t),
    {
        let mut r: Vec<usize> = Vec::new();
        let mut i: usize = 0;
        while i < self.arcs.len()
            invariant
                0 <= i <= self.arcs@.len(),
                r@ == postset_t(self.arcs@.take(i as int), t),
            decreases self.arcs@.len() - i,
        {
            proof { lemma_take_step(self.arcs@, i as int); }
            match self.arcs[i] {
                ArcType::TransitionPlace(u, p) => if u == t { r.push(p); },
                ArcType::PlaceTransition(_, _) => {},
            }
            i += 1;
        }
        assert(self.arcs@.take(i as int) =~= self.arcs@);
        r
    }

    /// The transitions with an arc into place `p`.
    pub fn preset_of_place(&self, p: usize) -> (r: Vec<usize>)
        ensures
            r@ == preset_p(self.arcs@, p),
    {
        let mut r: Vec<usize> = Vec::new();
        let mut i: usize = 0;
        while i < self.arcs.len()
            invariant
                0 <= i <= self.arcs@.len(),
                r@ == preset_p(self.arcs@.take(i as int), p),
            decreases self.arcs@.len() - i,
        {
            proof { lemma_take_step(self.arcs@, i as int); }
            match self.arcs[i] {
                ArcType::TransitionPlace(t, q) => if q == p { r.push(t); },
                ArcType::PlaceTransition(_, _) => {},
            }
            i += 1;
        }
        assert(self.arcs@.take(i as int) =~= self.arcs@);
        r
    }

    /// The transitions with an arc from place `p`.
    pub fn postset_of_place(&self, p: usize) -> (r: Vec<usize>)
        ensures
            r@ == postset_p(self.arcs@, p),
    {
        let mut r: Vec<usize> = Vec::new();
        let mut i: usize = 0;
        while i < self.arcs.len()
            invariant
                0 <= i <= self.arcs@.len(),
                r@ == postset_p(self.arcs@.take(i as int), p),
            decreases self.arcs@.len() - i,
        {
            proof { lemma_take_step(self.arcs@, i as int); }
            match self.arcs[i] {
                ArcType::PlaceTransition(q, t) => if q == p { r.push(t); },
                ArcType::TransitionPlace(_, _) => {},
            }
            i += 1;
        }
        assert(self.arcs@.take(i as int) =~= self.arcs@);
        r
    }

    /// Removes place `p` with its arcs.
    pub fn remove_place(&mut self, p: usize)
        requires
            p < old(self).places@.len(),
        ensures
            final(self).places@ == old(self).places@.update(p as int, false),
            final(self).arcs@ == without_place(old(self).arcs@, p),
            final(self).transitions@ == old(self).transitions@,
            final(self).initial_place == old(self).initial_place,
            final(self).final_place == old(self).final_place,
            old(self).wf() ==> final(self).wf(),
    {
        let mut kept: Vec<ArcType> = Vec::new();
        let mut i: usize = 0;
        while i < self.arcs.len()
            invariant
                0 <= i <= self.arcs@.len(),
                *self == *old(self),
                kept@ == without_place(self.arcs@.take(i as int), p),
            decreases self.arcs@.len() - i,
        {
            proof { lemma_take_step(self.arcs@, i as int); }
            let a = self.arcs[i];
            let touches = match a {
                ArcType::PlaceTransition(q, _) => q == p,
                ArcType::TransitionPlace(_, q) => q == p,
            };
            if !touches {
                kept.push(a);
            }
            i += 1;
        }
        assert(self.arcs@.take(i as int) =~= self.arcs@);
        self.arcs = kept;
        self.places.set(p, false);
        proof {
            lemma_without_place(old(self).arcs@, p);
            if old(self).wf() {
                assert forall|k: int| 0 <= k < self.arcs@.len() implies self.arc_in_net(#[trigger] self.arcs@[k]) by {
                    let a = self.arcs@[k];
                    assert(without_place(old(self).arcs@, p).contains(a));
                    assert(old(self).arcs@.contains(a) && !touches_place(a, p));
                    let j = choose|j: int| 0 <= j < old(self).arcs@.len() && old(self).arcs@[j] == a;
                    assert(old(self).arc_in_net(old(self).arcs@[j]));
                }
            }
        }
    }

    /// Removes transition `t` with its arcs; its label stays on record.
    pub fn remove_transition(&mut self, t: usize)
        requires
            t < old(self).transitions@.len(),
        ensures
            final(self).transitions@ == old(self).transitions@.update(t as int,
                Transition { label: old(self).transitions@[t as int].label, present: false }),
            final(self).arcs@ == without_transition(old(self).arcs@, t),
            final(self).places@ == old(self).places@,
            final(self).initial_place == old(self).initial_place,
            final(self).final_place == old(self).final_place,
            old(self).wf() ==> final(self).wf(),
    {
        let mut kept: Vec<ArcType> = Vec::new();
        let mut i: usize = 0;
        while i < self.arcs.len()
            invariant
                0 <= i <= self.arcs@.len(),
                *self == *old(self),
                kept@ == without_transition(self.arcs@.take(i as int), t),
            decreases self.arcs@.len() - i,
        {
            proof { lemma_take_step(self.arcs@, i as int); }
            let a = self.arcs[i];
            let touches = match a {
                ArcType::PlaceTransition(_, u) => u == t,
                ArcType::TransitionPlace(u, _) => u == t,
            };
            if !touches {
                kept.push(a);
            }
            i += 1;
        }
        assert(self.arcs@.take(i as int) =~= self.arcs@);
        self.arcs = kept;
        let label = match &self.transitions[t].label {
            Some(s) => Some(s.clone()),
            None => None,
        };
        self.transitions.set(t, Transition { label, present: false });
        proof {
            lemma_without_transition(old(self).arcs@, t);
            if old(self).wf() {
                assert forall|k: int| 0 <= k < self.arcs@.len() implies self.arc_in_net(#[trigger] self.arcs@[k]) by {
                    let a = self.arcs@[k];
                    assert(without_transition(old(self).arcs@, t).contains(a));
                    assert(old(self).arcs@.contains(a) && !touches_transition(a, t));
                    let j = choose|j: int| 0 <= j < old(self).arcs@.len() && old(self).arcs@[j] == a;
                    assert(old(self).arc_in_net(old(self).arcs@[j]));
                }
            }
        }
    }

    /// Whether `p` is the place of the initial marking.
    pub fn is_in_initial_marking(&self, p: usize) -> (r: bool)
        ensures
            r == (self.initial_place == Some(p)),
    {
        match self.initial_place {
            Some(q) => q == p,
            None => false,
        }
    }

    /// Whether `p` is the place of the final marking.
    pub fn is_in_a_final_marking(&self, p: usize) -> (r: bool)
        ensures
            r == (self.final_place == Some(p)),
    {
        match self.final_place {
            Some(q) => q == p,
            None => false,
        }
    }
}

proof fn lemma_take_step<A>(s: Seq<A>, i: int)
    requires
        0 <= i < s.len(),
    ensures
        s.take(i + 1).drop_last() == s.take(i),
        s.take(i + 1).last() == s[i],
{
    assert(s.take(i + 1).drop_last() =~= s.take(i));
}

proof fn lemma_split_last<A>(s: Seq<A>)
    requires
        s.len() > 0,
    ensures
        s == s.drop_last().push(s.last()),
{
    assert(s =~= s.drop_last().push(s.last()));
}

/// A place is in the preset of a transition exactly when the arc between them is there.
pub proof fn lemma_preset_t_contains(arcs: Seq<ArcType>, t: usize, p: usize)
    ensures
        preset_t(arcs, t).contains(p) <==> arcs.contains(ArcType::PlaceTransition(p, t)),
    decreases arcs.len(),
{
    broadcast use vstd::seq_lib::lemma_seq_contains_after_push;
    if arcs.len() > 0 {
        lemma_preset_t_contains(arcs.drop_last(), t, p);
        lemma_split_last(arcs);
    }
}

/// A place is in the postset of a transition exactly when the arc between them is there.
pub proof fn lemma_postset_t_contains(arcs: Seq<ArcType>, t: usize, p: usize)
    ensures
        postset_t(arcs, t).contains(p) <==> arcs.contains(ArcType::TransitionPlace(t, p)),
    decreases arcs.len(),
{
    broadcast use vstd::seq_lib::lemma_seq_contains_after_push;
    if arcs.len() > 0 {
        lemma_postset_t_contains(arcs.drop_last(), t, p);
        lemma_split_last(arcs);
    }
}

/// A transition is in the preset of a place exactly when the arc between them is there.
pub proof fn lemma_preset_p_contains(arcs: Seq<ArcType>, p: usize, t: usize)
    ensures
        preset_p(arcs, p).contains(t) <==> arcs.contains(ArcType::TransitionPlace(t, p)),
    decreases arcs.len(),
{
    broadcast use vstd::seq_lib::lemma_seq_contains_after_push;
    if arcs.len() > 0 {
        lemma_preset_p_contains(arcs.drop_last(), p, t);
        lemma_split_last(arcs);
    }
}

/// A transition is in the postset of a place exactly when the arc between them is there.
pub proof fn lemma_postset_p_contains(arcs: Seq<ArcType>, p: usize, t: usize)
    ensures
        postset_p(arcs, p).contains(t) <==> arcs.contains(ArcType::PlaceTransition(p, t)),
    decreases arcs.len(),
{
    broadcast use vstd::seq_lib::lemma_seq_contains_after_push;
    if arcs.len() > 0 {
        lemma_postset_p_contains(arcs.drop_last(), p, t);
        lemma_split_last(arcs);
    }
}

/// Removing the arcs of a place keeps the others, in order and without repetition.
pub proof fn lemma_without_place(arcs: Seq<ArcType>, p: usize)
    ensures
        forall|a: ArcType| without_place(arcs, p).contains(a) <==> arcs.contains(a) && !touches_place(a, p),
        arcs.no_duplicates() ==> without_place(arcs, p).no_duplicates(),
    decreases arcs.len(),
{
    broadcast use vstd::seq_lib::lemma_seq_contains_after_push;
    if arcs.len() > 0 {
        lemma_without_place(arcs.drop_last(), p);
        lemma_split_last(arcs);
        let rest = without_place(arcs.drop_last(), p);
        if arcs.no_duplicates() && !touches_place(arcs.last(), p) {
            assert(!arcs.drop_last().contains(arcs.last())) by {
                if arcs.drop_last().contains(arcs.last()) {
                    let i = choose|i: int| 0 <= i < arcs.drop_last().len() && arcs.drop_last()[i] == arcs.last();
                    assert(arcs[i] == arcs[arcs.len() - 1]);
                }
            }
            assert(arcs.drop_last().no_duplicates()) by {
                assert forall|i: int, j: int| 0 <= i < arcs.drop_last().len() && 0 <= j < arcs.drop_last().len() && i != j
                    implies arcs.drop_last()[i] != arcs.drop_last()[j] by {
                    assert(arcs[i] != arcs[j]);
                }
            }
            assert forall|i: int, j: int| 0 <= i < rest.push(arcs.last()).len() && 0 <= j < rest.push(arcs.last()).len() && i != j
                implies rest.push(arcs.last())[i] != rest.push(arcs.last())[j] by {
                if i == rest.len() {
                    assert(rest.contains(rest[j]));
                } else if j == rest.len() {
                    assert(rest.contains(rest[i]));
                }
            }
        } else if arcs.no_duplicates() {
            assert(arcs.drop_last().no_duplicates()) by {
                assert forall|i: int, j: int| 0 <= i < arcs.drop_last().len() && 0 <= j < arcs.drop_last().len() && i != j
                    implies arcs.drop_last()[i] != arcs.drop_last()[j] by {
                    assert(arcs[i] != arcs[j]);
                }
            }
        }
    }
}

/// Removing the arcs of a transition keeps the others, in order and without repetition.
pub proof fn lemma_without_transition(arcs: Seq<ArcType>, t: usize)
    ensures
        forall|a: ArcType| without_transition(arcs, t).contains(a) <==> arcs.contains(a) && !touches_transition(a, t),
        arcs.no_duplicates() ==> without_transition(arcs, t).no_duplicates(),
    decreases arcs.len(),
{
    broadcast use vstd::seq_lib::lemma_seq_contains_after_push;
    if arcs.len() > 0 {
        lemma_without_transition(arcs.drop_last(), t);
        lemma_split_last(arcs);
        let rest = without_transition(arcs.drop_last(), t);
        if arcs.no_duplicates() {
            assert(arcs.drop_last().no_duplicates()) by {
                assert forall|i: int, j: int| 0 <= i < arcs.drop_last().len() && 0 <= j < arcs.drop_last().len() && i != j
                    implies arcs.drop_last()[i] != arcs.drop_last()[j] by {
                    assert(arcs[i] != arcs[j]);
                }
            }
        }
        if arcs.no_duplicates() && !touches_transition(arcs.last(), t) {
            assert(!arcs.drop_last().contains(arcs.last())) by {
                if arcs.drop_last().contains(arcs.last()) {
                    let i = choose|i: int| 0 <= i < arcs.drop_last().len() && arcs.drop_last()[i] == arcs.last();
                    assert(arcs[i] == arcs[arcs.len() - 1]);
                }
            }
            assert forall|i: int, j: int| 0 <= i < rest.push(arcs.last()).len() && 0 <= j < rest.push(arcs.last()).len() && i != j
                implies rest.push(arcs.last())[i] != rest.push(arcs.last())[j] by {
                if i == rest.len() {
                    assert(rest.contains(rest[j]));
                } else if j == rest.len() {
                    assert(rest.contains(rest[i]));
                }
            }
        }
    }
}

/// Where a piece of the translation starts or ends: a place, or a transition
/// to be joined to a new place.
#[derive(Debug, Clone, Copy)]
pub enum NetEntity {
    Place(usize),
    Transition(usize),
}

/// Whether the entity belongs to the net.
pub open spec fn entity_in(net: PetriNet, e: NetEntity) -> bool {
    match e {
        NetEntity::Place(p) => net.has_place(p as int),
        NetEntity::Transition(t) => net.has_transition(t as int),
    }
}

/// `new` keeps every place and transition of `old` as it was, and its markings.
pub open spec fn extends(old: PetriNet, new: PetriNet) -> bool {
    &&& old.places@.len() <= new.places@.len()
    &&& forall|i: int| 0 <= i < old.places@.len() ==> new.places@[i] == old.places@[i]
    &&& old.transitions@.len() <= new.transitions@.len()
    &&& forall|i: int| 0 <= i < old.transitions@.len() ==> new.transitions@[i] == old.transitions@[i]
    &&& new.initial_place == old.initial_place
    &&& new.final_place == old.final_place
}

/// The activities of the leaves of the tree, from left to right.
pub open spec fn leaf_activities(t: PTree) -> Seq<Seq<char>>
    decreases t, 1nat,
{
    match t {
        PTree::Leaf(Some(a)) => seq![a],
        PTree::Leaf(None) => Seq::empty(),
        PTree::Op(_, cs) => children_activities(cs).flatten(),
    }
}

/// The activities of the leaves of each tree.
pub open spec fn children_activities(cs: Seq<PTree>) -> Seq<Seq<Seq<char>>>
    decreases cs, 0nat,
{
    Seq::new(cs.len(), |i: int| if 0 <= i < cs.len() { leaf_activities(cs[i]) } else { Seq::empty() })
}

/// The activities of the leaves of the first `k` trees, from left to right.
pub open spec fn activities_upto(cs: Seq<PTree>, k: int) -> Seq<Seq<char>> {
    Seq::new(k as nat, |i: int| leaf_activities(cs[i])).flatten()
}

proof fn lemma_activities_step(cs: Seq<PTree>, k: int)
    requires
        0 <= k < cs.len(),
    ensures
        activities_upto(cs, k + 1) == activities_upto(cs, k) + leaf_activities(cs[k]),
{
    let f = |i: int| leaf_activities(cs[i]);
    assert(Seq::new((k + 1) as nat, f) =~= Seq::new(k as nat, f).push(leaf_activities(cs[k])));
    Seq::new(k as nat, f).lemma_flatten_push(leaf_activities(cs[k]));
}

proof fn lemma_activities_all(op: OperatorType, cs: Seq<PTree>)
    ensures
        leaf_activities(PTree::Op(op, cs)) == activities_upto(cs, cs.len() as int),
        activities_upto(cs, 0) == Seq::<Seq<char>>::empty(),
{
    let a = children_activities(cs);
    let b = Seq::new((cs.len() as int) as nat, |i: int| leaf_activities(cs[i]));
    assert(a =~= b);
    assert(leaf_activities(PTree::Op(op, cs)) == a.flatten());
    assert(activities_upto(cs, cs.len() as int) == b.flatten());
    assert(Seq::new(0nat, |i: int| leaf_activities(cs[i])) =~= Seq::<Seq<Seq<char>>>::empty());
}

proof fn lemma_visible_push(s: Seq<Transition>, x: Transition)
    ensures
        visible_labels(s.push(x)) == visible_labels(s) + match label_view(x) {
            Some(l) => if x.present { seq![l] } else { Seq::empty() },
            None => Seq::empty(),
        },
{
    assert(s.push(x).drop_last() =~= s);
    assert(visible_labels(s).push(label_view(x)->0) =~= visible_labels(s) + seq![label_view(x)->0]);
    assert(visible_labels(s) + Seq::<Seq<char>>::empty() =~= visible_labels(s));
}


/// A net as values: which places are present, the label and presence of each
/// transition, and the arcs.
pub ghost struct NetShape {
    pub places: Seq<bool>,
    pub trans: Seq<(Option<Seq<char>>, bool)>,
    pub arcs: Seq<ArcType>,
}

/// The shape of a net.
pub open spec fn shape_of(net: PetriNet) -> NetShape {
    NetShape {
        places: net.places@,
        trans: net.transitions@.map_values(|t: Transition| (label_view(t), t.present)),
        arcs: net.arcs@,
    }
}

/// The shape with one more place.
pub open spec fn with_place(s: NetShape) -> NetShape {
    NetShape { places: s.places.push(true), trans: s.trans, arcs: s.arcs }
}

/// The shape with one more transition, labelled `l` (silent for `None`).
pub open spec fn with_transition(s: NetShape, l: Option<Seq<char>>) -> NetShape {
    NetShape { places: s.places, trans: s.trans.push((l, true)), arcs: s.arcs }
}

/// The shape with arc `a`, unless it has it already.
pub open spec fn with_arc(s: NetShape, a: ArcType) -> NetShape {
    NetShape { places: s.places, trans: s.trans, arcs: if s.arcs.contains(a) { s.arcs } else { s.arcs.push(a) } }
}

/// The number the next place gets.
pub open spec fn next_place(s: NetShape) -> usize {
    s.places.len() as usize
}

/// The number the next transition gets.
pub open spec fn next_transition(s: NetShape) -> usize {
    s.trans.len() as usize
}

/// The place a piece starts from: the given place, or a new place after the given transition.
pub open spec fn start_of(s: NetShape, e: NetEntity) -> (NetShape, usize) {
    match e {
        NetEntity::Place(p) => (s, p),
        NetEntity::Transition(t) => (with_arc(with_place(s), ArcType::TransitionPlace(t, next_place(s))), next_place(s)),
    }
}

/// The place a piece ends in: the given place, a new place before the given
/// transition, or a new place.
pub open spec fn end_of(s: NetShape, e: Option<NetEntity>) -> (NetShape, usize) {
    match e {
        Some(NetEntity::Place(p)) => (s, p),
        Some(NetEntity::Transition(t)) => (with_arc(with_place(s), ArcType::PlaceTransition(next_place(s), t)), next_place(s)),
        None => (with_place(s), next_place(s)),
    }
}

/// The net after laying out tree `t` between `init` and `fin`, and the place it ends in.
pub open spec fn layout(t: PTree, s: NetShape, init: NetEntity, fin: Option<NetEntity>) -> (NetShape, usize)
    decreases t, 2int,
{
    let (s1, ip) = start_of(s, init);
    let (s2, fp) = end_of(s1, fin);
    (layout_body(t, s2, ip, fp), fp)
}

/// The net after laying out tree `t` from place `ip` to place `fp`:
/// - a leaf is a transition (silent for tau) from `ip` to `fp`;
/// - a choice lays out each child between `ip` and `fp`;
/// - a sequence lays out the children one after the other, each from where the
///   previous one ended, the last one into `fp`;
/// - concurrency and loop: see `layout_concurrency` and `layout_loop`.
pub open spec fn layout_body(t: PTree, s: NetShape, ip: usize, fp: usize) -> NetShape
    decreases t, 1int,
{
    match t {
        PTree::Leaf(l) => {
            let tr = next_transition(s);
            with_arc(with_arc(with_transition(s, l), ArcType::PlaceTransition(ip, tr)), ArcType::TransitionPlace(tr, fp))
        },
        PTree::Op(op, cs) => match op {
            OperatorType::ExclusiveChoice => layout_choice(cs, cs.len() as int, s, ip, fp),
            OperatorType::Concurrency => layout_concurrency(cs, s, ip, fp),
            OperatorType::Sequence => layout_sequence(cs, cs.len() as int, s, ip, fp).0,
            OperatorType::Loop => layout_loop(cs, s, ip, fp),
        },
    }
}

/// A concurrency: a silent split after `ip` and a silent join before `fp`, and
/// each child laid out from the split to the join.
pub open spec fn layout_concurrency(cs: Seq<PTree>, s: NetShape, ip: usize, fp: usize) -> NetShape
    decreases cs, cs.len() + 1,
{
    let split = next_transition(s);
    let s3 = with_transition(s, None);
    let join = next_transition(s3);
    let s4 = with_transition(s3, None);
    let s5 = with_arc(with_arc(s4, ArcType::PlaceTransition(ip, split)), ArcType::TransitionPlace(join, fp));
    layout_parallel(cs, cs.len() as int, s5, split, join)
}

/// A loop: an entry place reached from `ip` by a silent transition, and a
/// silent loop-back transition into the entry place. The body runs from the
/// entry place; where it is the only child it ends in `fp` and the loop-back
/// leaves `fp`. Otherwise each redo part runs from where the body ended, the
/// next into where the previous ended, a silent skip joins the body's end to
/// `fp`, and the loop-back leaves the last redo part's end.
pub open spec fn layout_loop(cs: Seq<PTree>, s: NetShape, ip: usize, fp: usize) -> NetShape
    decreases cs, cs.len() + 1,
{
    let entry = next_place(s);
    let s3 = with_place(s);
    let il = next_transition(s3);
    let s4 = with_arc(with_arc(with_transition(s3, None), ArcType::PlaceTransition(ip, il)), ArcType::TransitionPlace(il, entry));
    let lt = next_transition(s4);
    let s5 = with_transition(s4, None);
    if cs.len() == 0 {
        s5
    } else if cs.len() == 1 {
        let s6 = layout(cs[0], s5, NetEntity::Place(entry), Some(NetEntity::Place(fp))).0;
        with_arc(with_arc(s6, ArcType::PlaceTransition(fp, lt)), ArcType::TransitionPlace(lt, entry))
    } else {
        let (s6, body_exit) = layout(cs[0], s5, NetEntity::Place(entry), None);
        let (s7, redo) = layout_redo(cs, cs.len() as int, s6, body_exit);
        let skip = next_transition(s7);
        let s8 = with_arc(with_arc(with_transition(s7, None), ArcType::PlaceTransition(body_exit, skip)), ArcType::TransitionPlace(skip, fp));
        let looping = match redo {
            Some(x) => x,
            None => body_exit,
        };
        with_arc(with_arc(s8, ArcType::PlaceTransition(looping, lt)), ArcType::TransitionPlace(lt, entry))
    }
}

/// The first `k` children of a choice, each laid out between `ip` and `fp`.
pub open spec fn layout_choice(cs: Seq<PTree>, k: int, s: NetShape, ip: usize, fp: usize) -> NetShape
    decreases cs, k,
{
    if k <= 0 || k > cs.len() {
        s
    } else {
        layout(cs[k - 1], layout_choice(cs, k - 1, s, ip, fp), NetEntity::Place(ip), Some(NetEntity::Place(fp))).0
    }
}

/// The first `k` children of a concurrency, each laid out from `split` to `join`.
pub open spec fn layout_parallel(cs: Seq<PTree>, k: int, s: NetShape, split: usize, join: usize) -> NetShape
    decreases cs, k,
{
    if k <= 0 || k > cs.len() {
        s
    } else {
        layout(cs[k - 1], layout_parallel(cs, k - 1, s, split, join), NetEntity::Transition(split), Some(NetEntity::Transition(join))).0
    }
}

/// The first `k` children of a sequence, one after the other from `ip`, the last
/// one into `fp`; and the place where the `k`-th ended.
pub open spec fn layout_sequence(cs: Seq<PTree>, k: int, s: NetShape, ip: usize, fp: usize) -> (NetShape, usize)
    decreases cs, k,
{
    if k <= 0 || k > cs.len() {
        (s, ip)
    } else {
        let (s1, inter) = layout_sequence(cs, k - 1, s, ip, fp);
        let fin = if k == cs.len() { Some(NetEntity::Place(fp)) } else { None };
        layout(cs[k - 1], s1, NetEntity::Place(inter), fin)
    }
}

/// The redo parts of a loop among its first `k` children, each from `body_exit`
/// into where the previous one ended; and where the last one ended.
pub open spec fn layout_redo(cs: Seq<PTree>, k: int, s: NetShape, body_exit: usize) -> (NetShape, Option<usize>)
    decreases cs, k,
{
    if k <= 1 || k > cs.len() {
        (s, None)
    } else {
        let (s1, redo) = layout_redo(cs, k - 1, s, body_exit);
        let target = match redo {
            Some(x) => Some(NetEntity::Place(x)),
            None => None,
        };
        let (s2, exit) = layout(cs[k - 1], s1, NetEntity::Place(body_exit), target);
        (s2, Some(exit))
    }
}

proof fn lemma_shape_place(a: PetriNet, b: PetriNet)
    requires
        b.places@ == a.places@.push(true),
        b.transitions@ == a.transitions@,
        b.arcs@ == a.arcs@,
    ensures
        shape_of(b) == with_place(shape_of(a)),
{
}

proof fn lemma_shape_transition(a: PetriNet, b: PetriNet, x: Transition)
    requires
        b.places@ == a.places@,
        b.transitions@ == a.transitions@.push(x),
        x.present,
        b.arcs@ == a.arcs@,
    ensures
        shape_of(b) == with_transition(shape_of(a), label_view(x)),
{
    assert(shape_of(b).trans =~= shape_of(a).trans.push((label_view(x), true)));
}

/// Adds a silent transition.
fn add_hidden_transition(net: &mut PetriNet) -> (t: usize)
    requires
        old(net).wf(),
    ensures
        final(net).wf(),
        t == old(net).transitions@.len(),
        final(net).transitions@ == old(net).transitions@.push(Transition { label: None, present: true }),
        final(net).places@ == old(net).places@,
        final(net).arcs@ == old(net).arcs@,
        final(net).initial_place == old(net).initial_place,
        final(net).final_place == old(net).final_place,
        visible_labels(final(net).transitions@) == visible_labels(old(net).transitions@),
        shape_of(*final(net)) == with_transition(shape_of(*old(net)), None),
{
    let t = net.add_transition(None);
    proof {
        lemma_visible_push(old(net).transitions@, Transition { label: None, present: true });
        lemma_shape_transition(*old(net), *net, Transition { label: None, present: true });
    }
    t
}

/// Adds the arc, whose ends belong to the net.
fn connect(net: &mut PetriNet, a: ArcType)
    requires
        old(net).wf(),
        old(net).arc_in_net(a),
    ensures
        final(net).wf(),
        extends(*old(net), *final(net)),
        final(net).places@ == old(net).places@,
        final(net).transitions@ == old(net).transitions@,
        final(net).arcs@ == if old(net).arcs@.contains(a) { old(net).arcs@ } else { old(net).arcs@.push(a) },
        final(net).initial_place == old(net).initial_place,
        final(net).final_place == old(net).final_place,
        shape_of(*final(net)) == with_arc(shape_of(*old(net)), a),
{
    net.add_arc(a);
    assert(shape_of(*net).trans =~= shape_of(*old(net)).trans);
}

/// Adds to the net the translation of the tree between the initial entity and
/// the final one (a new place where there is none), and returns the final place:
/// the net becomes `layout` of the tree, and the result is the place it ends in.
#[verifier::spinoff_prover]
pub fn recursively_add_tree(node: &Node, net: &mut PetriNet, initial_entity: NetEntity, final_entity: Option<NetEntity>) -> (r: usize)
    requires
        old(net).wf(),
        entity_in(*old(net), initial_entity),
        final_entity matches Some(e) ==> entity_in(*old(net), e),
        loops_have_children(node@),
    ensures
        final(net).wf(),
        extends(*old(net), *final(net)),
        final(net).has_place(r as int),
        visible_labels(final(net).transitions@) == visible_labels(old(net).transitions@) + leaf_activities(node@),
        final_entity matches Some(NetEntity::Place(p)) ==> r == p,
        shape_of(*final(net)) == layout(node@, shape_of(*old(net)), initial_entity, final_entity).0,
        r == layout(node@, shape_of(*old(net)), initial_entity, final_entity).1,
    decreases node, 1int,
{
    let ghost start = *net;
    let ghost s0 = shape_of(*net);
    let initial_place = match initial_entity {
        NetEntity::Place(place) => place,
        NetEntity::Transition(transition) => {
            let ghost b = *net;
            let place = net.add_place();
            proof { lemma_shape_place(b, *net); }
            connect(net, ArcType::transition_to_place(transition, place));
            place
        },
    };
    let ghost s1 = shape_of(*net);
    assert(start_of(s0, initial_entity) == (s1, initial_place));
    let final_place = match final_entity {
        Some(NetEntity::Place(place)) => place,
        Some(NetEntity::Transition(transition)) => {
            let ghost b = *net;
            let place = net.add_place();
            proof { lemma_shape_place(b, *net); }
            connect(net, ArcType::place_to_transition(place, transition));
            place
        },
        None => {
            let ghost b = *net;
            let place = net.add_place();
            proof { lemma_shape_place(b, *net); }
            place
        },
    };
    let ghost s2 = shape_of(*net);
    assert(end_of(s1, final_entity) == (s2, final_place));
    assert(extends(start, *net));
    assert(visible_labels(net.transitions@) == visible_labels(start.transitions@));
    match node {
        Node::Leaf(leaf) => {
            let label = match &leaf.activity_label {
                LeafLabel::Activity(a) => Some(a.clone()),
                LeafLabel::Tau => None,
            };
            let ghost before = net.transitions@;
            let ghost b = *net;
            let transition = net.add_transition(label);
            proof {
                lemma_visible_push(before, Transition { label, present: true });
                lemma_shape_transition(b, *net, Transition { label, present: true });
            }
            connect(net, ArcType::place_to_transition(initial_place, transition));
            connect(net, ArcType::transition_to_place(transition, final_place));
            assert(visible_labels(net.transitions@) =~= visible_labels(start.transitions@) + leaf_activities(node@));
        },
        Node::Operator(op) => {
            match op.operator_type {
                OperatorType::ExclusiveChoice => add_choice(node, net, initial_place, final_place),
                OperatorType::Concurrency => add_parallel(node, net, initial_place, final_place),
                OperatorType::Sequence => add_sequence(node, net, initial_place, final_place),
                OperatorType::Loop => add_loop(node, net, initial_place, final_place),
            }
        },
    }
    final_place
}

/// The children of an operator node as trees, and what the loops need of them.
proof fn lemma_children_views(node: &Node)
    requires
        node is Operator,
        loops_have_children(node@),
    ensures
        node@ == PTree::Op(node->Operator_0.operator_type, Seq::new(node->Operator_0.children@.len(), |i: int| node->Operator_0.children@[i]@)),
        forall|i: int| 0 <= i < node->Operator_0.children@.len() ==> loops_have_children(#[trigger] node->Operator_0.children@[i]@),
        leaf_activities(node@) == activities_upto(node@->Op_1, node@->Op_1.len() as int),
        activities_upto(node@->Op_1, 0) == Seq::<Seq<char>>::empty(),
{
    let op = node->Operator_0;
    let cs = Seq::new(op.children@.len(), |i: int| op.children@[i]@);
    lemma_activities_all(op.operator_type, node@->Op_1);
    assert(node@->Op_1 =~= cs);
    assert forall|i: int| 0 <= i < op.children@.len() implies loops_have_children(#[trigger] op.children@[i]@) by {
        assert(node@->Op_1[i] == cs[i]);
    }
}

/// Lays out a choice node from `ip` to `fp`.
#[verifier::spinoff_prover]
fn add_choice(node: &Node, net: &mut PetriNet, ip: usize, fp: usize)
    requires
        old(net).wf(),
        old(net).has_place(ip as int),
        old(net).has_place(fp as int),
        node is Operator && node->Operator_0.operator_type == OperatorType::ExclusiveChoice,
        loops_have_children(node@),
    ensures
        final(net).wf(),
        extends(*old(net), *final(net)),
        visible_labels(final(net).transitions@) == visible_labels(old(net).transitions@) + leaf_activities(node@),
        shape_of(*final(net)) == layout_body(node@, shape_of(*old(net)), ip, fp),
    decreases node, 0int,
{
    let ghost start = *net;
    let ghost s2 = shape_of(*net);
    proof { lemma_children_views(node); }
    match node {
        Node::Operator(op) => {
            let ghost cs = node@->Op_1;
            let mut k: usize = 0;
            while k < op.children.len()
                invariant
                    0 <= k <= op.children@.len(),
                    cs.len() == op.children@.len(),
                    forall|i: int| 0 <= i < cs.len() ==> cs[i] == (#[trigger] op.children@[i])@,
                    forall|i: int| 0 <= i < cs.len() ==> loops_have_children(#[trigger] op.children@[i]@),
                    net.wf(),
                    extends(start, *net),
                    net.has_place(ip as int),
                    net.has_place(fp as int),
                    visible_labels(net.transitions@) == visible_labels(start.transitions@) + activities_upto(cs, k as int),
                    shape_of(*net) == layout_choice(cs, k as int, s2, ip, fp),
                decreases op.children@.len() - k,
            {
                proof { lemma_activities_step(cs, k as int); }
                recursively_add_tree(&op.children[k], net, NetEntity::Place(ip), Some(NetEntity::Place(fp)));
                assert(visible_labels(net.transitions@) =~= visible_labels(start.transitions@) + activities_upto(cs, k + 1));
                k += 1;
            }
        },
        Node::Leaf(_) => {},
    }
}

/// Lays out a concurrency node from `ip` to `fp`.
#[verifier::spinoff_prover]
fn add_parallel(node: &Node, net: &mut PetriNet, ip: usize, fp: usize)
    requires
        old(net).wf(),
        old(net).has_place(ip as int),
        old(net).has_place(fp as int),
        node is Operator && node->Operator_0.operator_type == OperatorType::Concurrency,
        loops_have_children(node@),
    ensures
        final(net).wf(),
        extends(*old(net), *final(net)),
        visible_labels(final(net).transitions@) == visible_labels(old(net).transitions@) + leaf_activities(node@),
        shape_of(*final(net)) == layout_body(node@, shape_of(*old(net)), ip, fp),
    decreases node, 0int,
{
    let ghost start = *net;
    proof { lemma_children_views(node); }
    match node {
        Node::Operator(op) => {
            let ghost cs = node@->Op_1;
            let split = add_hidden_transition(net);
            let join = add_hidden_transition(net);
            connect(net, ArcType::place_to_transition(ip, split));
            connect(net, ArcType::transition_to_place(join, fp));
            let ghost s5 = shape_of(*net);
            let mut k: usize = 0;
            while k < op.children.len()
                invariant
                    0 <= k <= op.children@.len(),
                    cs.len() == op.children@.len(),
                    forall|i: int| 0 <= i < cs.len() ==> cs[i] == (#[trigger] op.children@[i])@,
                    forall|i: int| 0 <= i < cs.len() ==> loops_have_children(#[trigger] op.children@[i]@),
                    net.wf(),
                    extends(start, *net),
                    net.has_transition(split as int),
                    net.has_transition(join as int),
                    visible_labels(net.transitions@) == visible_labels(start.transitions@) + activities_upto(cs, k as int),
                    shape_of(*net) == layout_parallel(cs, k as int, s5, split, join),
                decreases op.children@.len() - k,
            {
                proof { lemma_activities_step(cs, k as int); }
                recursively_add_tree(&op.children[k], net, NetEntity::Transition(split), Some(NetEntity::Transition(join)));
                assert(visible_labels(net.transitions@) =~= visible_labels(start.transitions@) + activities_upto(cs, k + 1));
                k += 1;
            }
        },
        Node::Leaf(_) => {},
    }
}

/// Lays out a sequence node from `ip` to `fp`.
#[verifier::spinoff_prover]
fn add_sequence(node: &Node, net: &mut PetriNet, ip: usize, fp: usize)
    requires
        old(net).wf(),
        old(net).has_place(ip as int),
        old(net).has_place(fp as int),
        node is Operator && node->Operator_0.operator_type == OperatorType::Sequence,
        loops_have_children(node@),
    ensures
        final(net).wf(),
        extends(*old(net), *final(net)),
        visible_labels(final(net).transitions@) == visible_labels(old(net).transitions@) + leaf_activities(node@),
        shape_of(*final(net)) == layout_body(node@, shape_of(*old(net)), ip, fp),
    decreases node, 0int,
{
    let ghost start = *net;
    let ghost s2 = shape_of(*net);
    proof { lemma_children_views(node); }
    match node {
        Node::Operator(op) => {
            let ghost cs = node@->Op_1;
            let mut intermediate_place = ip;
            let mut k: usize = 0;
            while k < op.children.len()
                invariant
                    0 <= k <= op.children@.len(),
                    cs.len() == op.children@.len(),
                    forall|i: int| 0 <= i < cs.len() ==> cs[i] == (#[trigger] op.children@[i])@,
                    forall|i: int| 0 <= i < cs.len() ==> loops_have_children(#[trigger] op.children@[i]@),
                    net.wf(),
                    extends(start, *net),
                    net.has_place(intermediate_place as int),
                    net.has_place(fp as int),
                    visible_labels(net.transitions@) == visible_labels(start.transitions@) + activities_upto(cs, k as int),
                    (shape_of(*net), intermediate_place) == layout_sequence(cs, k as int, s2, ip, fp),
                decreases op.children@.len() - k,
            {
                proof { lemma_activities_step(cs, k as int); }
                let final_connection = if k == op.children.len() - 1 {
                    Some(NetEntity::Place(fp))
                } else {
                    None
                };
                intermediate_place = recursively_add_tree(&op.children[k], net, NetEntity::Place(intermediate_place), final_connection);
                assert(visible_labels(net.transitions@) =~= visible_labels(start.transitions@) + activities_upto(cs, k + 1));
                k += 1;
            }
        },
        Node::Leaf(_) => {},
    }
}

/// Lays out a loop node from `ip` to `fp`.
#[verifier::spinoff_prover]
#[verifier::rlimit(20)]
fn add_loop(node: &Node, net: &mut PetriNet, ip: usize, fp: usize)
    requires
        old(net).wf(),
        old(net).has_place(ip as int),
        old(net).has_place(fp as int),
        node is Operator && node->Operator_0.operator_type == OperatorType::Loop,
        loops_have_children(node@),
    ensures
        final(net).wf(),
        extends(*old(net), *final(net)),
        visible_labels(final(net).transitions@) == visible_labels(old(net).transitions@) + leaf_activities(node@),
        shape_of(*final(net)) == layout_body(node@, shape_of(*old(net)), ip, fp),
    decreases node, 0int,
{
    let ghost start = *net;
    proof { lemma_children_views(node); }
    match node {
        Node::Operator(op) => {
            let ghost cs = node@->Op_1;
            assert(cs.len() > 0);
            let ghost b = *net;
            let loop_entry = net.add_place();
            proof { lemma_shape_place(b, *net); }
            let init_loop = add_hidden_transition(net);
            connect(net, ArcType::place_to_transition(ip, init_loop));
            connect(net, ArcType::transition_to_place(init_loop, loop_entry));
            let loop_transition = add_hidden_transition(net);
            let ghost s5 = shape_of(*net);
            assert(cs[0] == op.children@[0]@);
            if op.children.len() == 1 {
                proof { lemma_activities_step(cs, 0); }
                recursively_add_tree(&op.children[0], net, NetEntity::Place(loop_entry), Some(NetEntity::Place(fp)));
                connect(net, ArcType::place_to_transition(fp, loop_transition));
                connect(net, ArcType::transition_to_place(loop_transition, loop_entry));
                assert(visible_labels(net.transitions@) =~= visible_labels(start.transitions@) + activities_upto(cs, 1));
            } else {
                proof { lemma_activities_step(cs, 0); }
                let body_exit = recursively_add_tree(&op.children[0], net, NetEntity::Place(loop_entry), None);
                assert(visible_labels(net.transitions@) =~= visible_labels(start.transitions@) + activities_upto(cs, 1));
                let ghost s6 = shape_of(*net);
                let mut redo_exit: Option<usize> = None;
                let mut k: usize = 1;
                while k < op.children.len()
                    invariant
                        1 <= k <= op.children@.len(),
                        cs.len() == op.children@.len(),
                        forall|i: int| 0 <= i < cs.len() ==> cs[i] == (#[trigger] op.children@[i])@,
                        forall|i: int| 0 <= i < cs.len() ==> loops_have_children(#[trigger] op.children@[i]@),
                        net.wf(),
                        extends(start, *net),
                        net.has_place(body_exit as int),
                        net.has_place(fp as int),
                        net.has_place(loop_entry as int),
                        net.has_transition(loop_transition as int),
                        redo_exit matches Some(x) ==> net.has_place(x as int),
                        visible_labels(net.transitions@) == visible_labels(start.transitions@) + activities_upto(cs, k as int),
                        (shape_of(*net), redo_exit) == layout_redo(cs, k as int, s6, body_exit),
                    decreases op.children@.len() - k,
                {
                    proof { lemma_activities_step(cs, k as int); }
                    let target = match redo_exit {
                        Some(x) => Some(NetEntity::Place(x)),
                        None => None,
                    };
                    let exit = recursively_add_tree(&op.children[k], net, NetEntity::Place(body_exit), target);
                    redo_exit = Some(exit);
                    assert(visible_labels(net.transitions@) =~= visible_labels(start.transitions@) + activities_upto(cs, k + 1));
                    k += 1;
                }
                let skip = add_hidden_transition(net);
                connect(net, ArcType::place_to_transition(body_exit, skip));
                connect(net, ArcType::transition_to_place(skip, fp));
                let looping_place = match redo_exit {
                    Some(x) => x,
                    None => body_exit,
                };
                connect(net, ArcType::place_to_transition(looping_place, loop_transition));
                connect(net, ArcType::transition_to_place(loop_transition, loop_entry));
            }
        },
        Node::Leaf(_) => {},
    }
}

/// Whether every element of `s` is `t`, and there is one.
pub open spec fn only(s: Seq<usize>, t: usize) -> bool {
    s.len() > 0 && forall|i: int| 0 <= i < s.len() ==> s[i] == t
}

/// Whether silent transition `t` takes its only token from a place that only
/// another transition fills and only `t` empties: the place and `t` can go, the
/// other transition then feeding the places that `t` fed.
pub open spec fn entry_reducible(net: PetriNet, t: usize) -> bool {
    let pre = preset_t(net.arcs@, t);
    &&& net.has_transition(t as int)
    &&& label_view(net.transitions@[t as int]) is None
    &&& pre.len() == 1
    &&& preset_p(net.arcs@, pre[0]).len() == 1
    &&& only(postset_p(net.arcs@, pre[0]), t)
    &&& preset_p(net.arcs@, pre[0])[0] != t
}

/// Whether silent transition `t` puts its only token into a place that only `t`
/// fills and only another transition empties: the place and `t` can go, the
/// other transition then taking from the places that `t` took from.
pub open spec fn exit_reducible(net: PetriNet, t: usize) -> bool {
    let post = postset_t(net.arcs@, t);
    &&& net.has_transition(t as int)
    &&& label_view(net.transitions@[t as int]) is None
    &&& post.len() == 1
    &&& postset_p(net.arcs@, post[0]).len() == 1
    &&& only(preset_p(net.arcs@, post[0]), t)
    &&& postset_p(net.arcs@, post[0])[0] != t
}

/// The number of places still in the net.
pub open spec fn present_places(s: Seq<bool>) -> nat
    decreases s.len(),
{
    if s.len() == 0 {
        0
    } else {
        present_places(s.drop_last()) + if s.last() { 1nat } else { 0nat }
    }
}

proof fn lemma_remove_one_transition(s: Seq<Transition>, i: int, x: Transition)
    requires
        0 <= i < s.len(),
        s[i].present,
        !x.present,
        label_view(s[i]) is None,
    ensures
        present_count(s.update(i, x)) + 1 == present_count(s),
        visible_labels(s.update(i, x)) == visible_labels(s),
    decreases s.len(),
{
    if i < s.len() - 1 {
        lemma_remove_one_transition(s.drop_last(), i, x);
        assert(s.update(i, x).drop_last() =~= s.drop_last().update(i, x));
    } else {
        assert(s.update(i, x).drop_last() =~= s.drop_last());
    }
}

proof fn lemma_remove_one_place(s: Seq<bool>, i: int)
    requires
        0 <= i < s.len(),
        s[i],
    ensures
        present_places(s.update(i, false)) + 1 == present_places(s),
    decreases s.len(),
{
    if i < s.len() - 1 {
        lemma_remove_one_place(s.drop_last(), i);
        assert(s.update(i, false).drop_last() =~= s.drop_last().update(i, false));
    } else {
        assert(s.update(i, false).drop_last() =~= s.drop_last());
    }
}

impl PetriNet {
    /// The number of transitions in the net.
    pub fn transition_count(&self) -> (r: usize)
        ensures
            r == present_count(self.transitions@),
    {
        let mut r: usize = 0;
        let mut i: usize = 0;
        while i < self.transitions.len()
            invariant
                0 <= i <= self.transitions@.len(),
                r == present_count(self.transitions@.take(i as int)),
                r <= i,
            decreases self.transitions@.len() - i,
        {
            proof { lemma_take_step(self.transitions@, i as int); }
            if self.transitions[i].present {
                r += 1;
            }
            i += 1;
        }
        assert(self.transitions@.take(i as int) =~= self.transitions@);
        r
    }

    /// The number of places in the net.
    pub fn place_count(&self) -> (r: usize)
        ensures
            r == present_places(self.places@),
    {
        let mut r: usize = 0;
        let mut i: usize = 0;
        while i < self.places.len()
            invariant
                0 <= i <= self.places@.len(),
                r == present_places(self.places@.take(i as int)),
                r <= i,
            decreases self.places@.len() - i,
        {
            proof { lemma_take_step(self.places@, i as int); }
            if self.places[i] {
                r += 1;
            }
            i += 1;
        }
        assert(self.places@.take(i as int) =~= self.places@);
        r
    }
}

/// Whether `s` holds `t` and nothing else.
fn is_only(s: &Vec<usize>, t: usize) -> (r: bool)
    ensures
        r == only(s@, t),
{
    if s.len() == 0 {
        return false;
    }
    let mut i: usize = 0;
    while i < s.len()
        invariant
            0 <= i <= s@.len(),
            s@.len() > 0,
            forall|j: int| 0 <= j < i ==> s@[j] == t,
        decreases s@.len() - i,
    {
        if s[i] != t {
            return false;
        }
        i += 1;
    }
    true
}

/// Whether place `p` has transition `t` as its only output.
fn place_has_only_transition_as_output(net: &PetriNet, p: usize, t: usize) -> (r: bool)
    ensures
        r == only(postset_p(net.arcs@, p), t),
{
    let outgoing = net.postset_of_place(p);
    is_only(&outgoing, t)
}

/// Whether place `p` has transition `t` as its only input.
fn place_has_only_transition_as_input(net: &PetriNet, p: usize, t: usize) -> (r: bool)
    ensures
        r == only(preset_p(net.arcs@, p), t),
{
    let incoming = net.preset_of_place(p);
    is_only(&incoming, t)
}

/// Whether `entry_reducible` holds of transition `t`.
fn check_entry_reducible(net: &PetriNet, t: usize) -> (r: bool)
    requires
        t < net.transitions@.len(),
    ensures
        r == entry_reducible(*net, t),
{
    if !net.transitions[t].present || net.transitions[t].label.is_some() {
        return false;
    }
    let source_places = net.preset_of_transition(t);
    if source_places.len() != 1 {
        return false;
    }
    let source_place = source_places[0];
    let incoming = net.preset_of_place(source_place);
    incoming.len() == 1 && place_has_only_transition_as_output(net, source_place, t) && incoming[0] != t
}

/// Whether `exit_reducible` holds of transition `t`.
fn check_exit_reducible(net: &PetriNet, t: usize) -> (r: bool)
    requires
        t < net.transitions@.len(),
    ensures
        r == exit_reducible(*net, t),
{
    if !net.transitions[t].present || net.transitions[t].label.is_some() {
        return false;
    }
    let target_places = net.postset_of_transition(t);
    if target_places.len() != 1 {
        return false;
    }
    let target_place = target_places[0];
    let outgoing = net.postset_of_place(target_place);
    outgoing.len() == 1 && place_has_only_transition_as_input(net, target_place, t) && outgoing[0] != t
}

/// What a reduction keeps: the net stays well formed, keeps its visible
/// transitions, its numbering and its markings.
pub open spec fn reduction_keeps(old: PetriNet, new: PetriNet) -> bool {
    &&& new.wf()
    &&& visible_labels(new.transitions@) == visible_labels(old.transitions@)
    &&& new.transitions@.len() == old.transitions@.len()
    &&& new.places@.len() == old.places@.len()
    &&& new.initial_place == old.initial_place
    &&& new.final_place == old.final_place
}

/// Whether the two nets are the same.
pub open spec fn same_net(a: PetriNet, b: PetriNet) -> bool {
    a.places@ == b.places@ && a.transitions@ == b.transitions@ && a.arcs@ == b.arcs@
        && a.initial_place == b.initial_place && a.final_place == b.final_place
}

proof fn lemma_same_net_reducible(a: PetriNet, b: PetriNet)
    requires
        same_net(a, b),
    ensures
        forall|t: usize| #[trigger] entry_reducible(a, t) == entry_reducible(b, t),
        forall|t: usize| #[trigger] exit_reducible(a, t) == exit_reducible(b, t),
{
}


/// The arcs with `a` added, unless they have it already.
pub open spec fn add_new(arcs: Seq<ArcType>, a: ArcType) -> Seq<ArcType> {
    if arcs.contains(a) { arcs } else { arcs.push(a) }
}

/// The arcs with an arc from transition `src` to each of the first `k` places of `targets`.
pub open spec fn feed_from(arcs: Seq<ArcType>, src: usize, targets: Seq<usize>, k: int) -> Seq<ArcType>
    decreases k,
{
    if k <= 0 || k > targets.len() {
        arcs
    } else {
        add_new(feed_from(arcs, src, targets, k - 1), ArcType::TransitionPlace(src, targets[k - 1]))
    }
}

/// The arcs with an arc from each of the first `k` places of `sources` to transition `dst`.
pub open spec fn take_into(arcs: Seq<ArcType>, dst: usize, sources: Seq<usize>, k: int) -> Seq<ArcType>
    decreases k,
{
    if k <= 0 || k > sources.len() {
        arcs
    } else {
        add_new(take_into(arcs, dst, sources, k - 1), ArcType::PlaceTransition(sources[k - 1], dst))
    }
}

/// `b` is `a` after the entry reduction at `t`, the lowest-numbered transition
/// where one applies: `t` and the place before it go, and the transition that
/// filled that place gets an arc to each place that `t` fed.
pub open spec fn entry_step(a: PetriNet, b: PetriNet, t: usize) -> bool {
    let p = preset_t(a.arcs@, t)[0];
    let src = preset_p(a.arcs@, p)[0];
    let targets = postset_t(a.arcs@, t);
    &&& entry_reducible(a, t)
    &&& forall|u: usize| u < t ==> !#[trigger] entry_reducible(a, u)
    &&& b.places@ == a.places@.update(p as int, false)
    &&& b.transitions@ == a.transitions@.update(t as int, Transition { label: a.transitions@[t as int].label, present: false })
    &&& b.arcs@ == feed_from(without_place(without_transition(a.arcs@, t), p), src, targets, targets.len() as int)
    &&& b.initial_place == a.initial_place
    &&& b.final_place == a.final_place
}

/// `b` is `a` after the exit reduction at `t`, the lowest-numbered transition
/// where one applies: `t` and the place after it go, and the transition that
/// emptied that place gets an arc from each place that `t` took from.
pub open spec fn exit_step(a: PetriNet, b: PetriNet, t: usize) -> bool {
    let p = postset_t(a.arcs@, t)[0];
    let dst = postset_p(a.arcs@, p)[0];
    let sources = preset_t(a.arcs@, t);
    &&& exit_reducible(a, t)
    &&& forall|u: usize| u < t ==> !#[trigger] exit_reducible(a, u)
    &&& b.places@ == a.places@.update(p as int, false)
    &&& b.transitions@ == a.transitions@.update(t as int, Transition { label: a.transitions@[t as int].label, present: false })
    &&& b.arcs@ == take_into(without_place(without_transition(a.arcs@, t), p), dst, sources, sources.len() as int)
    &&& b.initial_place == a.initial_place
    &&& b.final_place == a.final_place
}

/// Each net of `nets` comes from the one before by the step of `steps` at the
/// same position: an entry reduction (`true`) or an exit reduction (`false`)
/// at the given transition.
pub open spec fn reduction_path(nets: Seq<PetriNet>, steps: Seq<(bool, usize)>) -> bool {
    &&& nets.len() == steps.len() + 1
    &&& forall|i: int| 0 <= i < steps.len() ==> if (#[trigger] steps[i]).0 {
        entry_step(nets[i], nets[i + 1], steps[i].1)
    } else {
        exit_step(nets[i], nets[i + 1], steps[i].1)
    }
}

/// `b` is reached from `a` by reduction steps.
pub open spec fn reduces_to(a: PetriNet, b: PetriNet) -> bool {
    exists|nets: Seq<PetriNet>, steps: Seq<(bool, usize)>| #[trigger] reduction_path(nets, steps) && nets[0] == a && nets.last() == b
}

proof fn lemma_reduces_refl(a: PetriNet)
    ensures
        reduces_to(a, a),
{
    let nets = seq![a];
    let steps = Seq::<(bool, usize)>::empty();
    assert(reduction_path(nets, steps));
}

proof fn lemma_reduces_step(a: PetriNet, b: PetriNet, c: PetriNet, entry: bool, t: usize)
    requires
        reduces_to(a, b),
        entry ==> entry_step(b, c, t),
        !entry ==> exit_step(b, c, t),
    ensures
        reduces_to(a, c),
{
    let (nets, steps) = choose|nets: Seq<PetriNet>, steps: Seq<(bool, usize)>| #[trigger] reduction_path(nets, steps) && nets[0] == a && nets.last() == b;
    let n2 = nets.push(c);
    let s2 = steps.push((entry, t));
    assert forall|i: int| 0 <= i < s2.len() implies if (#[trigger] s2[i]).0 {
        entry_step(n2[i], n2[i + 1], s2[i].1)
    } else {
        exit_step(n2[i], n2[i + 1], s2[i].1)
    } by {
        if i < steps.len() {
            assert(s2[i] == steps[i]);
            assert(n2[i] == nets[i] && n2[i + 1] == nets[i + 1]);
        } else {
            assert(n2[i] == b);
        }
    }
    assert(reduction_path(n2, s2));
}

proof fn lemma_reduces_trans(a: PetriNet, b: PetriNet, c: PetriNet)
    requires
        reduces_to(a, b),
        reduces_to(b, c),
    ensures
        reduces_to(a, c),
{
    let (n1, s1) = choose|nets: Seq<PetriNet>, steps: Seq<(bool, usize)>| #[trigger] reduction_path(nets, steps) && nets[0] == a && nets.last() == b;
    let (n2, s2) = choose|nets: Seq<PetriNet>, steps: Seq<(bool, usize)>| #[trigger] reduction_path(nets, steps) && nets[0] == b && nets.last() == c;
    let nets = n1 + n2.drop_first();
    let steps = s1 + s2;
    assert forall|i: int| 0 <= i < steps.len() implies if (#[trigger] steps[i]).0 {
        entry_step(nets[i], nets[i + 1], steps[i].1)
    } else {
        exit_step(nets[i], nets[i + 1], steps[i].1)
    } by {
        if i < s1.len() {
            assert(steps[i] == s1[i]);
            assert(nets[i] == n1[i]);
            if i + 1 < n1.len() {
                assert(nets[i + 1] == n1[i + 1]);
            }
        } else {
            let j = i - s1.len();
            assert(steps[i] == s2[j]);
            if j == 0 {
                assert(nets[i] == n1.last());
                assert(n2[0] == b);
            } else {
                assert(nets[i] == n2[j]);
            }
            assert(nets[i + 1] == n2[j + 1]);
        }
    }
    assert(reduction_path(nets, steps));
    if n2.len() == 1 {
        assert(nets.last() == n1.last());
    } else {
        assert(nets.last() == n2.last());
    }
}

/// Removes silent transition `t` and the place before it; the transition that
/// filled that place now feeds the places that `t` fed.
fn reduce_entry_at(net: &mut PetriNet, t: usize)
    requires
        old(net).wf(),
        entry_reducible(*old(net), t),
        forall|u: usize| u < t ==> !#[trigger] entry_reducible(*old(net), u),
    ensures
        reduction_keeps(*old(net), *final(net)),
        present_count(final(net).transitions@) + 1 == present_count(old(net).transitions@),
        entry_step(*old(net), *final(net), t),
{
    let ghost n0 = *net;
    let source_places = net.preset_of_transition(t);
    let source_place = source_places[0];
    let incoming = net.preset_of_place(source_place);
    let source_transition = incoming[0];
    let target_places = net.postset_of_transition(t);
    proof {
        assert(source_places@.contains(source_place));
        lemma_preset_t_contains(n0.arcs@, t, source_place);
        let i = choose|i: int| 0 <= i < n0.arcs@.len() && n0.arcs@[i] == ArcType::PlaceTransition(source_place, t);
        assert(n0.arc_in_net(n0.arcs@[i]));
        assert(incoming@.contains(source_transition));
        lemma_preset_p_contains(n0.arcs@, source_place, source_transition);
        let j = choose|j: int| 0 <= j < n0.arcs@.len() && n0.arcs@[j] == ArcType::TransitionPlace(source_transition, source_place);
        assert(n0.arc_in_net(n0.arcs@[j]));
        assert forall|k: int| 0 <= k < target_places@.len() implies n0.has_place(#[trigger] target_places@[k] as int)
            && target_places@[k] != source_place by {
            let q = target_places@[k];
            assert(target_places@.contains(q));
            lemma_postset_t_contains(n0.arcs@, t, q);
            let m = choose|m: int| 0 <= m < n0.arcs@.len() && n0.arcs@[m] == ArcType::TransitionPlace(t, q);
            assert(n0.arc_in_net(n0.arcs@[m]));
            if q == source_place {
                lemma_preset_p_contains(n0.arcs@, source_place, t);
                assert(preset_p(n0.arcs@, source_place).contains(t));
                let w = choose|w: int| 0 <= w < incoming@.len() && incoming@[w] == t;
                assert(w == 0);
            }
        }
        lemma_remove_one_transition(n0.transitions@, t as int,
            Transition { label: n0.transitions@[t as int].label, present: false });
    }
    net.remove_transition(t);
    net.remove_place(source_place);
    let ghost n2 = *net;
    let mut k: usize = 0;
    while k < target_places.len()
        invariant
            0 <= k <= target_places@.len(),
            net.wf(),
            net.places@ == n2.places@,
            net.transitions@ == n2.transitions@,
            net.initial_place == n0.initial_place,
            net.final_place == n0.final_place,
            net.has_transition(source_transition as int),
            forall|j: int| 0 <= j < target_places@.len() ==> net.has_place(#[trigger] target_places@[j] as int),
            net.arcs@ == feed_from(n2.arcs@, source_transition, target_places@, k as int),
        decreases target_places@.len() - k,
    {
        net.add_arc(ArcType::transition_to_place(source_transition, target_places[k]));
        k += 1;
    }
}

/// Removes silent transition `t` and the place after it; the transition that
/// emptied that place now takes from the places that `t` took from.
fn reduce_exit_at(net: &mut PetriNet, t: usize)
    requires
        old(net).wf(),
        exit_reducible(*old(net), t),
        forall|u: usize| u < t ==> !#[trigger] exit_reducible(*old(net), u),
    ensures
        reduction_keeps(*old(net), *final(net)),
        present_count(final(net).transitions@) + 1 == present_count(old(net).transitions@),
        exit_step(*old(net), *final(net), t),
{
    let ghost n0 = *net;
    let target_places = net.postset_of_transition(t);
    let target_place = target_places[0];
    let outgoing = net.postset_of_place(target_place);
    let target_transition = outgoing[0];
    let source_places = net.preset_of_transition(t);
    proof {
        assert(target_places@.contains(target_place));
        lemma_postset_t_contains(n0.arcs@, t, target_place);
        let i = choose|i: int| 0 <= i < n0.arcs@.len() && n0.arcs@[i] == ArcType::TransitionPlace(t, target_place);
        assert(n0.arc_in_net(n0.arcs@[i]));
        assert(outgoing@.contains(target_transition));
        lemma_postset_p_contains(n0.arcs@, target_place, target_transition);
        let j = choose|j: int| 0 <= j < n0.arcs@.len() && n0.arcs@[j] == ArcType::PlaceTransition(target_place, target_transition);
        assert(n0.arc_in_net(n0.arcs@[j]));
        assert forall|k: int| 0 <= k < source_places@.len() implies n0.has_place(#[trigger] source_places@[k] as int)
            && source_places@[k] != target_place by {
            let q = source_places@[k];
            assert(source_places@.contains(q));
            lemma_preset_t_contains(n0.arcs@, t, q);
            let m = choose|m: int| 0 <= m < n0.arcs@.len() && n0.arcs@[m] == ArcType::PlaceTransition(q, t);
            assert(n0.arc_in_net(n0.arcs@[m]));
            if q == target_place {
                lemma_postset_p_contains(n0.arcs@, target_place, t);
                assert(postset_p(n0.arcs@, target_place).contains(t));
                let w = choose|w: int| 0 <= w < outgoing@.len() && outgoing@[w] == t;
                assert(w == 0);
            }
        }
        lemma_remove_one_transition(n0.transitions@, t as int,
            Transition { label: n0.transitions@[t as int].label, present: false });
    }
    net.remove_transition(t);
    net.remove_place(target_place);
    let ghost n2 = *net;
    let mut k: usize = 0;
    while k < source_places.len()
        invariant
            0 <= k <= source_places@.len(),
            net.wf(),
            net.places@ == n2.places@,
            net.transitions@ == n2.transitions@,
            net.initial_place == n0.initial_place,
            net.final_place == n0.final_place,
            net.has_transition(target_transition as int),
            forall|j: int| 0 <= j < source_places@.len() ==> net.has_place(#[trigger] source_places@[j] as int),
            net.arcs@ == take_into(n2.arcs@, target_transition, source_places@, k as int),
        decreases source_places@.len() - k,
    {
        net.add_arc(ArcType::place_to_transition(source_places[k], target_transition));
        k += 1;
    }
}

/// Removes, one at a time and always the lowest-numbered first, the silent
/// transitions that `entry_reducible` allows, until none is left.
pub fn reduce_single_entry_transitions(net: &mut PetriNet)
    requires
        old(net).wf(),
    ensures
        reduction_keeps(*old(net), *final(net)),
        present_count(final(net).transitions@) <= present_count(old(net).transitions@),
        present_count(final(net).transitions@) == present_count(old(net).transitions@) ==> same_net(*old(net), *final(net)),
        forall|t: usize| !entry_reducible(*final(net), t),
        (forall|t: usize| !entry_reducible(*old(net), t)) ==> same_net(*old(net), *final(net)),
        reduces_to(*old(net), *final(net)),
{
    let ghost n0 = *net;
    proof { lemma_reduces_refl(n0); }
    loop
        invariant
            reduces_to(n0, *net),
            reduction_keeps(n0, *net),
            present_count(net.transitions@) <= present_count(n0.transitions@),
            present_count(net.transitions@) == present_count(n0.transitions@) ==> same_net(n0, *net),
            (forall|t: usize| !entry_reducible(n0, t)) ==> same_net(n0, *net),
        decreases present_count(net.transitions@),
    {
        let mut found: Option<usize> = None;
        let mut i: usize = 0;
        while i < net.transitions.len() && found.is_none()
            invariant
                0 <= i <= net.transitions@.len(),
                found is None ==> forall|j: usize| j < i ==> !entry_reducible(*net, j),
                found matches Some(x) ==> entry_reducible(*net, x) && forall|j: usize| j < x ==> !#[trigger] entry_reducible(*net, j),
            decreases net.transitions@.len() - i,
        {
            if check_entry_reducible(net, i) {
                found = Some(i);
            }
            i += 1;
        }
        match found {
            None => {
                assert forall|t: usize| !entry_reducible(*net, t) by {
                    if t >= i {
                        assert(!net.has_transition(t as int));
                    }
                }
                break;
            },
            Some(t) => {
                proof {
                    if forall|u: usize| !entry_reducible(n0, u) {
                        lemma_same_net_reducible(n0, *net);
                        assert(!entry_reducible(n0, t));
                    }
                }
                let ghost before = *net;
                reduce_entry_at(net, t);
                proof { lemma_reduces_step(n0, before, *net, true, t); }
            },
        }
    }
}

/// Removes, one at a time and always the lowest-numbered first, the silent
/// transitions that `exit_reducible` allows, until none is left.
pub fn reduce_single_exit_transitions(net: &mut PetriNet)
    requires
        old(net).wf(),
    ensures
        reduction_keeps(*old(net), *final(net)),
        present_count(final(net).transitions@) <= present_count(old(net).transitions@),
        present_count(final(net).transitions@) == present_count(old(net).transitions@) ==> same_net(*old(net), *final(net)),
        forall|t: usize| !exit_reducible(*final(net), t),
        (forall|t: usize| !exit_reducible(*old(net), t)) ==> same_net(*old(net), *final(net)),
        reduces_to(*old(net), *final(net)),
{
    let ghost n0 = *net;
    proof { lemma_reduces_refl(n0); }
    loop
        invariant
            reduces_to(n0, *net),
            reduction_keeps(n0, *net),
            present_count(net.transitions@) <= present_count(n0.transitions@),
            present_count(net.transitions@) == present_count(n0.transitions@) ==> same_net(n0, *net),
            (forall|t: usize| !exit_reducible(n0, t)) ==> same_net(n0, *net),
        decreases present_count(net.transitions@),
    {
        let mut found: Option<usize> = None;
        let mut i: usize = 0;
        while i < net.transitions.len() && found.is_none()
            invariant
                0 <= i <= net.transitions@.len(),
                found is None ==> forall|j: usize| j < i ==> !exit_reducible(*net, j),
                found matches Some(x) ==> exit_reducible(*net, x) && forall|j: usize| j < x ==> !#[trigger] exit_reducible(*net, j),
            decreases net.transitions@.len() - i,
        {
            if check_exit_reducible(net, i) {
                found = Some(i);
            }
            i += 1;
        }
        match found {
            None => {
                assert forall|t: usize| !exit_reducible(*net, t) by {
                    if t >= i {
                        assert(!net.has_transition(t as int));
                    }
                }
                break;
            },
            Some(t) => {
                proof {
                    if forall|u: usize| !exit_reducible(n0, u) {
                        lemma_same_net_reducible(n0, *net);
                        assert(!exit_reducible(n0, t));
                    }
                }
                let ghost before = *net;
                reduce_exit_at(net, t);
                proof { lemma_reduces_step(n0, before, *net, false, t); }
            },
        }
    }
}

/// Alternates the two reductions until a round changes nothing; then neither
/// applies to any transition.
pub fn apply_simple_reduction(net: &mut PetriNet)
    requires
        old(net).wf(),
    ensures
        reduction_keeps(*old(net), *final(net)),
        forall|t: usize| !entry_reducible(*final(net), t),
        forall|t: usize| !exit_reducible(*final(net), t),
        (forall|t: usize| !entry_reducible(*old(net), t) && !exit_reducible(*old(net), t)) ==> same_net(*old(net), *final(net)),
        reduces_to(*old(net), *final(net)),
{
    let ghost n0 = *net;
    proof { lemma_reduces_refl(n0); }
    loop
        invariant
            reduces_to(n0, *net),
            reduction_keeps(n0, *net),
            (forall|t: usize| !entry_reducible(n0, t) && !exit_reducible(n0, t)) ==> same_net(n0, *net),
        decreases present_count(net.transitions@),
    {
        let ghost start = *net;
        let old_transition_count = net.transition_count();
        let old_place_count = net.place_count();
        reduce_single_entry_transitions(net);
        let ghost middle = *net;
        proof {
            if forall|t: usize| !entry_reducible(n0, t) && !exit_reducible(n0, t) {
                lemma_same_net_reducible(n0, start);
                assert forall|t: usize| !entry_reducible(start, t) by {
                    assert(!entry_reducible(n0, t) && !exit_reducible(n0, t));
                }
                assert(same_net(start, middle));
                lemma_same_net_reducible(start, middle);
                assert forall|t: usize| !exit_reducible(middle, t) by {
                    assert(!entry_reducible(n0, t) && !exit_reducible(n0, t));
                }
            }
        }
        reduce_single_exit_transitions(net);
        proof {
            lemma_reduces_trans(n0, start, middle);
            lemma_reduces_trans(n0, middle, *net);
        }
        if net.transition_count() == old_transition_count && net.place_count() == old_place_count {
            assert(same_net(start, middle));
            assert(same_net(middle, *net));
            assert forall|t: usize| !entry_reducible(*net, t) by {
                assert(!entry_reducible(middle, t));
            }
            break;
        }
    }
}

/// The place of an arc.
pub open spec fn place_of(a: ArcType) -> usize {
    match a {
        ArcType::PlaceTransition(p, _) => p,
        ArcType::TransitionPlace(_, p) => p,
    }
}

/// Whether place `p` stays when the places that lead nowhere (but the final
/// place) and those that nothing leads to (but the initial place) go.
pub open spec fn keeps_place(net: PetriNet, p: int) -> bool {
    &&& net.has_place(p)
    &&& !(postset_p(net.arcs@, p as usize).len() == 0 && net.final_place != Some(p as usize))
    &&& !(preset_p(net.arcs@, p as usize).len() == 0 && net.initial_place != Some(p as usize))
}

/// Removing the arcs of one place leaves the presets and postsets of the others.
proof fn lemma_without_place_keeps_sets(arcs: Seq<ArcType>, p: usize, q: usize)
    requires
        p != q,
    ensures
        preset_p(without_place(arcs, p), q) == preset_p(arcs, q),
        postset_p(without_place(arcs, p), q) == postset_p(arcs, q),
    decreases arcs.len(),
{
    if arcs.len() > 0 {
        lemma_without_place_keeps_sets(arcs.drop_last(), p, q);
        let rest = without_place(arcs.drop_last(), p);
        if !touches_place(arcs.last(), p) {
            assert(rest.push(arcs.last()).drop_last() =~= rest);
        }
    }
}

/// Removes the places without outgoing arcs but the final one, and the places
/// without incoming arcs but the initial one.
pub fn remove_non_terminal_places(net: &mut PetriNet)
    requires
        old(net).wf(),
    ensures
        final(net).wf(),
        final(net).places@.len() == old(net).places@.len(),
        forall|i: int| 0 <= i < final(net).places@.len() ==> final(net).places@[i] == keeps_place(*old(net), i),
        final(net).transitions@ == old(net).transitions@,
        forall|a: ArcType| #[trigger] final(net).arcs@.contains(a) <==> old(net).arcs@.contains(a) && keeps_place(*old(net), place_of(a) as int),
        final(net).initial_place == old(net).initial_place,
        final(net).final_place == old(net).final_place,
{
    let ghost n0 = *net;
    let n = net.places.len();
    let mut k: usize = 0;
    while k < n
        invariant
            0 <= k <= n,
            n == n0.places@.len(),
            net.wf(),
            net.places@.len() == n,
            net.transitions@ == n0.transitions@,
            net.initial_place == n0.initial_place,
            net.final_place == n0.final_place,
            forall|q: int| 0 <= q < k ==> net.places@[q] == keeps_place(n0, q),
            forall|q: int| k <= q < n ==> net.places@[q] == n0.places@[q],
            forall|q: usize| k <= q ==> preset_p(net.arcs@, q) == preset_p(n0.arcs@, q)
                && postset_p(net.arcs@, q) == postset_p(n0.arcs@, q),
            forall|a: ArcType| #[trigger] net.arcs@.contains(a) <==> n0.arcs@.contains(a)
                && (place_of(a) < k ==> keeps_place(n0, place_of(a) as int)),
        decreases n - k,
    {
        let ghost before = *net;
        let mut remove = false;
        if net.places[k] {
            let outgoing = net.postset_of_place(k);
            let incoming = net.preset_of_place(k);
            if outgoing.len() == 0 && !net.is_in_a_final_marking(k) {
                remove = true;
            } else if incoming.len() == 0 && !net.is_in_initial_marking(k) {
                remove = true;
            }
        }
        if remove {
            net.remove_place(k);
            proof {
                lemma_without_place(before.arcs@, k);
                assert forall|q: usize| k + 1 <= q implies preset_p(net.arcs@, q) == preset_p(n0.arcs@, q)
                    && postset_p(net.arcs@, q) == postset_p(n0.arcs@, q) by {
                    lemma_without_place_keeps_sets(before.arcs@, k, q);
                }
            }
        }
        proof {
            assert(net.places@[k as int] == keeps_place(n0, k as int));
            assert forall|a: ArcType| #[trigger] net.arcs@.contains(a) <==> n0.arcs@.contains(a)
                && (place_of(a) < k + 1 ==> keeps_place(n0, place_of(a) as int)) by {
                if n0.arcs@.contains(a) {
                    let j = choose|j: int| 0 <= j < n0.arcs@.len() && n0.arcs@[j] == a;
                    assert(n0.arc_in_net(n0.arcs@[j]));
                }
                if net.arcs@.contains(a) {
                    let j = choose|j: int| 0 <= j < net.arcs@.len() && net.arcs@[j] == a;
                    assert(net.arc_in_net(net.arcs@[j]));
                }
                if before.arcs@.contains(a) {
                    let j = choose|j: int| 0 <= j < before.arcs@.len() && before.arcs@[j] == a;
                    assert(before.arc_in_net(before.arcs@[j]));
                }
            }
        }
        k += 1;
    }
}

/// The tree that the translation works on: the simplified tree, or a tau leaf
/// where nothing is left of it.
pub open spec fn translated_tree(t: PTree) -> PTree {
    match simplified(t) {
        Some(s) => s,
        None => PTree::Leaf(None),
    }
}

/// The net that the layout of tree `t` gives before any reduction: places 0
/// (source) and 1 (sink); where the tree needs it, a new place reached from the
/// source by a silent transition, and a new place leading to the sink by a silent
/// transition; then the tree laid out between the two.
pub open spec fn petri_layout(t: PTree) -> NetShape {
    let s0 = NetShape { places: seq![true, true], trans: Seq::empty(), arcs: Seq::empty() };
    let (s1, init) = if tau_at_start(t) {
        let p = next_place(s0);
        let a = with_place(s0);
        let tr = next_transition(a);
        (with_arc(with_arc(with_transition(a, None), ArcType::PlaceTransition(0, tr)), ArcType::TransitionPlace(tr, p)), p)
    } else {
        (s0, 0usize)
    };
    let (s2, fin) = if tau_at_end(t) {
        let p = next_place(s1);
        let a = with_place(s1);
        let tr = next_transition(a);
        (with_arc(with_arc(with_transition(a, None), ArcType::PlaceTransition(p, tr)), ArcType::TransitionPlace(tr, 1)), p)
    } else {
        (s1, 1usize)
    };
    layout(t, s2, NetEntity::Place(init), Some(NetEntity::Place(fin))).0
}

/// `reduced` is what the simple reduction leaves of `laid`: it is reached by
/// entry and exit reduction steps, keeps what a reduction must, no silent
/// transition can be reduced any more, and nothing changed where nothing could
/// be reduced.
pub open spec fn reduced_from(laid: PetriNet, reduced: PetriNet) -> bool {
    &&& reduces_to(laid, reduced)
    &&& reduction_keeps(laid, reduced)
    &&& forall|t: usize| !entry_reducible(reduced, t)
    &&& forall|t: usize| !exit_reducible(reduced, t)
    &&& (forall|t: usize| !entry_reducible(laid, t) && !exit_reducible(laid, t)) ==> same_net(laid, reduced)
}

/// `r` is `net` without the dead-end places and their arcs.
pub open spec fn pruned_from(net: PetriNet, r: PetriNet) -> bool {
    &&& r.places@.len() == net.places@.len()
    &&& forall|i: int| 0 <= i < r.places@.len() ==> r.places@[i] == keeps_place(net, i)
    &&& r.transitions@ == net.transitions@
    &&& forall|a: ArcType| #[trigger] r.arcs@.contains(a) <==> net.arcs@.contains(a) && keeps_place(net, place_of(a) as int)
    &&& r.initial_place == net.initial_place
    &&& r.final_place == net.final_place
}

/// `r` is the Petri net of process tree `t` (see `process_tree_to_petri_net`).
pub open spec fn petri_net_of(t: PTree, r: PetriNet) -> bool {
    &&& r.wf()
    &&& visible_labels(r.transitions@) == leaf_activities(translated_tree(t))
    &&& r.initial_place == Some(0usize)
    &&& r.final_place == Some(1usize)
    &&& exists|laid: PetriNet, reduced: PetriNet|
        #[trigger] shape_of(laid) == petri_layout(translated_tree(t))
        && laid.wf() && laid.initial_place == Some(0usize) && laid.final_place == Some(1usize)
        && #[trigger] reduced_from(laid, reduced)
        && pruned_from(reduced, r)
}

/// The Petri net of a process tree: the simplified tree is laid out between a
/// source place (the initial marking) and a sink place (the final marking),
/// with a silent transition after the source or before the sink where the tree
/// needs one; then silent transitions are reduced and dead-end places removed.
/// The net has one visible transition for each activity leaf of the simplified
/// tree, in the order of the leaves.
pub fn process_tree_to_petri_net(tree: &ProcessTree) -> (r: PetriNet)
    ensures
        petri_net_of(tree@, r),
{
    let simplified_tree = simplify_process_tree(tree);
    proof {
        lemma_simplified_loops_have_children(tree@);
    }
    let ghost t = translated_tree(tree@);
    let mut net = PetriNet::new();
    let ghost n0 = net;
    let source = net.add_place();
    let ghost n1 = net;
    let sink = net.add_place();
    proof {
        lemma_shape_place(n0, n1);
        lemma_shape_place(n1, net);
        assert(shape_of(n0).trans =~= Seq::<(Option<Seq<char>>, bool)>::empty());
        assert(shape_of(net).places =~= seq![true, true]);
        assert(shape_of(net).trans =~= Seq::<(Option<Seq<char>>, bool)>::empty());
        assert(shape_of(net).arcs =~= Seq::<ArcType>::empty());
        assert(shape_of(net) == NetShape { places: seq![true, true], trans: Seq::empty(), arcs: Seq::empty() });
    }
    net.initial_place = Some(source);
    net.final_place = Some(sink);
    assert(visible_labels(net.transitions@) =~= Seq::<Seq<char>>::empty());
    let initial_entity = if check_tau_mandatory_at_initial_marking(&simplified_tree.root) {
        let ghost b = net;
        let initial_place = net.add_place();
        proof { lemma_shape_place(b, net); }
        let tau_initial = add_hidden_transition(&mut net);
        connect(&mut net, ArcType::place_to_transition(source, tau_initial));
        connect(&mut net, ArcType::transition_to_place(tau_initial, initial_place));
        NetEntity::Place(initial_place)
    } else {
        NetEntity::Place(source)
    };
    let final_entity = if check_tau_mandatory_at_final_marking(&simplified_tree.root) {
        let ghost b = net;
        let final_place = net.add_place();
        proof { lemma_shape_place(b, net); }
        let tau_final = add_hidden_transition(&mut net);
        connect(&mut net, ArcType::place_to_transition(final_place, tau_final));
        connect(&mut net, ArcType::transition_to_place(tau_final, sink));
        NetEntity::Place(final_place)
    } else {
        NetEntity::Place(sink)
    };
    recursively_add_tree(&simplified_tree.root, &mut net, initial_entity, Some(final_entity));
    let ghost laid = net;
    assert(shape_of(laid) == petri_layout(t));
    apply_simple_reduction(&mut net);
    let ghost reduced = net;
    assert(reduced_from(laid, reduced));
    remove_non_terminal_places(&mut net);
    assert(pruned_from(reduced, net));
    assert(visible_labels(net.transitions@) =~= leaf_activities(translated_tree(tree@)));
    net
}

} // verus!
