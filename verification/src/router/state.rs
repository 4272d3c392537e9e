//! What a walk accumulates: the characters that each named parameter has
//! captured so far.

use crate::automaton::Transition;
use crate::router::token::InputToken;
use vstd::prelude::*;

verus! {

/// The parameters after `token` was captured under `name`: the parameter is
/// there, empty if it was not there before, and a character is appended to it.
/// A method is no character: it appends nothing.
pub open spec fn recorded(
    params: Map<Seq<char>, Seq<char>>,
    name: Seq<char>,
    token: InputToken,
) -> Map<Seq<char>, Seq<char>> {
    let before = if params.contains_key(name) {
        params[name]
    } else {
        Seq::empty()
    };
    match token {
        InputToken::Char(c) => params.insert(name, before.push(c)),
        InputToken::Method(_) => params.insert(name, before),
    }
}

/// `String::push` of std: the string after the call is the string before it
/// with `c` appended.
#[verifier::external_body]
pub(crate) fn push_char(text: &mut String, c: char)
    ensures
        final(text)@ == old(text)@.push(c),
{
    text.push(c)
}

/// The state of one walk: the parameters captured so far, each under its
/// name. It is made for one walk and dropped with it.
#[derive(Debug)]
pub struct AutomatonState {
    params: Vec<(String, String)>,
}

impl View for AutomatonState {
    type V = Map<Seq<char>, Seq<char>>;

    closed spec fn view(&self) -> Map<Seq<char>, Seq<char>> {
        Map::new(
            |name: Seq<char>| self.has(name),
            |name: Seq<char>| self.params@[self.position_of(name)].1@,
        )
    }
}

impl AutomatonState {
    spec fn has(&self, name: Seq<char>) -> bool {
        exists|i: int| 0 <= i < self.params@.len() && #[trigger] self.params@[i].0@ == name
    }

    spec fn position_of(&self, name: Seq<char>) -> int {
        choose|i: int| 0 <= i < self.params@.len() && #[trigger] self.params@[i].0@ == name
    }

    /// No name stands twice.
    pub closed spec fn wf(&self) -> bool {
        forall|i: int, j: int|
            0 <= i < self.params@.len() && 0 <= j < self.params@.len() && i != j
                ==> #[trigger] self.params@[i].0@ != #[trigger] self.params@[j].0@
    }

    proof fn lemma_entry(&self, i: int)
        requires
            self.wf(),
            0 <= i < self.params@.len(),
        ensures
            self@.contains_key(self.params@[i].0@),
            self@[self.params@[i].0@] == self.params@[i].1@,
    {
        let name = self.params@[i].0@;
        assert(self.has(name));
        assert(self.position_of(name) == i);
    }

    /// A state that holds no parameter.
    pub fn new() -> (state: Self)
        ensures
            state.wf(),
            state@ == Map::<Seq<char>, Seq<char>>::empty(),
    {
        let state = AutomatonState { params: Vec::new() };
        assert(state@ =~= Map::<Seq<char>, Seq<char>>::empty());
        state
    }

    /// The number of parameters.
    pub fn len(&self) -> (n: usize)
        requires
            self.wf(),
        ensures
            n == self@.len(),
            self@.dom().finite(),
    {
        proof {
            self.lemma_len(self.params@.len() as int);
            assert(self.names_up_to(self.params@.len() as int) =~= self@.dom());
        }
        self.params.len()
    }

    spec fn names_up_to(&self, n: int) -> Set<Seq<char>> {
        Set::new(
            |name: Seq<char>| exists|i: int| 0 <= i < n && #[trigger] self.params@[i].0@ == name,
        )
    }

    proof fn lemma_len(&self, n: int)
        requires
            self.wf(),
            0 <= n <= self.params@.len(),
        ensures
            self.names_up_to(n).finite(),
            self.names_up_to(n).len() == n,
        decreases n,
    {
        if n == 0 {
            assert(self.names_up_to(0) =~= Set::<Seq<char>>::empty());
        } else {
            self.lemma_len(n - 1);
            let last = self.params@[n - 1].0@;
            assert(self.names_up_to(n) =~= self.names_up_to(n - 1).insert(last));
            assert(!self.names_up_to(n - 1).contains(last));
        }
    }

    /// Whether no parameter was captured.
    pub fn is_empty(&self) -> (b: bool)
        requires
            self.wf(),
        ensures
            b == (self@ == Map::<Seq<char>, Seq<char>>::empty()),
    {
        let b = self.params.len() == 0;
        proof {
            if b {
                assert(self@ =~= Map::<Seq<char>, Seq<char>>::empty());
            } else {
                self.lemma_entry(0);
            }
        }
        b
    }

    fn find(&self, name: &String) -> (found: Option<usize>)
        requires
            self.wf(),
        ensures
            match found {
                Some(i) => i < self.params@.len() && self.params@[i as int].0@ == name@,
                None => !self.has(name@),
            },
    {
        let mut i: usize = 0;
        while i < self.params.len()
            invariant
                i <= self.params@.len(),
                forall|j: int| 0 <= j < i ==> (#[trigger] self.params@[j]).0@ != name@,
            decreases self.params@.len() - i,
        {
            if self.params[i].0 == *name {
                return Some(i);
            }
            i = i + 1;
        }
        None
    }

    /// What was captured under `name`, if anything was.
    pub fn get(&self, name: &str) -> (value: Option<&String>)
        requires
            self.wf(),
        ensures
            value is Some <==> self@.contains_key(name@),
            value matches Some(text) ==> text@ == self@[name@],
    {
        let owned = name.to_owned();
        match self.find(&owned) {
            Some(i) => {
                proof {
                    self.lemma_entry(i as int);
                }
                Some(&self.params[i].1)
            },
            None => None,
        }
    }

    /// Captures `token` under `name`.
    pub fn record(&mut self, name: &String, token: InputToken)
        requires
            old(self).wf(),
        ensures
            final(self).wf(),
            final(self)@ == recorded(old(self)@, name@, token),
    {
        let found = self.find(name);
        let at = match found {
            Some(i) => i,
            None => {
                let at = self.params.len();
                self.params.push((name.clone(), String::new()));
                at
            },
        };
        let ghost middle = *self;
        proof {
            let entries = middle.params@;
            assert forall|i: int, j: int|
                0 <= i < entries.len() && 0 <= j < entries.len() && i != j implies (
                #[trigger] entries[i]).0@ != (#[trigger] entries[j]).0@ by {
                if found is None {
                    if i < old(self).params@.len() {
                        assert(old(self).params@[i].0@ == middle.params@[i].0@);
                    }
                    if j < old(self).params@.len() {
                        assert(old(self).params@[j].0@ == middle.params@[j].0@);
                    }
                }
            }
            assert(middle.wf());
            middle.lemma_entry(at as int);
            if found is Some {
                old(self).lemma_entry(at as int);
            } else {
                assert(!old(self)@.contains_key(name@));
            }
        }
        match token {
            InputToken::Char(c) => {
                push_char(&mut self.params[at].1, c);
            },
            InputToken::Method(_) => {},
        }
        proof {
            let entries = self.params@;
            assert forall|i: int, j: int|
                0 <= i < entries.len() && 0 <= j < entries.len() && i != j implies (
                #[trigger] entries[i]).0@ != (#[trigger] entries[j]).0@ by {
                assert(middle.params@[i].0@ == self.params@[i].0@);
                assert(middle.params@[j].0@ == self.params@[j].0@);
            }
            assert(self.wf());
            let before = old(self)@;
            let after = recorded(before, name@, token);
            assert forall|other: Seq<char>| after.contains_key(other) <==> self@.contains_key(
                other,
            ) by {
                if self.has(other) {
                    let i = self.position_of(other);
                    if i != at {
                        assert(old(self).params@[i].0@ == other);
                    }
                }
                if before.contains_key(other) {
                    let i = old(self).position_of(other);
                    assert(self.params@[i].0@ == other);
                }
                if other == name@ {
                    assert(self.params@[at as int].0@ == other);
                }
            }
            assert forall|other: Seq<char>| after.contains_key(other) implies after[other]
                == self@[other] by {
                let i = self.position_of(other);
                self.lemma_entry(i);
                if i != at {
                    assert(old(self).params@[i].0@ == other);
                    old(self).lemma_entry(i);
                }
            }
            assert(self@ =~= after);
        }
    }

    /// The parameters as pairs of a name and what was captured under it, each
    /// name once.
    pub fn into_pairs(self) -> (pairs: Vec<(String, String)>)
        requires
            self.wf(),
        ensures
            forall|i: int|
                0 <= i < pairs@.len() ==> self@.contains_key(#[trigger] pairs@[i].0@)
                    && self@[pairs@[i].0@] == pairs@[i].1@,
            forall|name: Seq<char>|
                self@.contains_key(name) ==> exists|i: int|
                    0 <= i < pairs@.len() && #[trigger] pairs@[i].0@ == name,
            forall|i: int, j: int|
                0 <= i < j < pairs@.len() ==> #[trigger] pairs@[i].0@ != #[trigger] pairs@[j].0@,
    {
        proof {
            assert forall|i: int| 0 <= i < self.params@.len() implies self@.contains_key(
                #[trigger] self.params@[i].0@,
            ) && self@[self.params@[i].0@] == self.params@[i].1@ by {
                self.lemma_entry(i);
            }
        }
        self.params
    }
}

impl Default for AutomatonState {
    fn default() -> (state: Self)
        ensures
            state.wf(),
            state@ == Map::<Seq<char>, Seq<char>>::empty(),
    {
        AutomatonState::new()
    }
}

/// The loop transition of a node at which a parameter is captured: every
/// token that reaches it is recorded under the parameter's name.
#[derive(Debug)]
pub struct Capture {
    pub name: String,
}

impl Transition<AutomatonState, InputToken> for Capture {
    open spec fn accepts(&self, state: &AutomatonState, token: InputToken) -> bool {
        state.wf()
    }

    open spec fn relates(
        &self,
        before: &AutomatonState,
        token: InputToken,
        after: &AutomatonState,
    ) -> bool {
        &&& after.wf()
        &&& after@ == recorded(before@, self.name@, token)
    }

    fn apply(&self, state: &mut AutomatonState, token: InputToken) {
        state.record(&self.name, token);
    }
}

} // verus!
