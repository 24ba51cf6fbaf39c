use vstd::prelude::*;

use crate::breach::BreachResult;
use crate::digest::{hash_password, spec_digest};

verus! {

/// Lifecycle of one lookup. The value is replaced wholesale on each
/// transition and never mutated in place; no state is terminal.
#[derive(Debug)]
pub enum SearchResult {
    /// A completed lookup's aggregate.
    Breaches(BreachResult),
    /// A failed lookup, with a human-readable description of the failure.
    Errored(String),
    /// Nothing submitted yet, or the input edited since the last outcome.
    NotSubmitted,
    /// A lookup is in flight.
    Searching,
}

/// What the surrounding event loop is asked to run after a transition.
pub enum Action {
    /// Nothing to run.
    Idle,
    /// Fetch the candidate set for this digest's five-character prefix and
    /// hand the outcome back as a `Message::BreachResult` event.
    Fetch(String),
}

/// The events the state machine consumes.
#[derive(Debug)]
pub enum Message {
    /// The password field changed.
    Input(String),
    /// The user asked for a lookup of the current password.
    Submit,
    /// A lookup came back, with its aggregate or its failure text.
    BreachResult(Result<BreachResult, String>),
    /// The clear-text display of the password was toggled.
    ShowPassword(bool),
}

impl Clone for Message {
    /// An event's copy is the event itself.
    fn clone(&self) -> (r: Self)
        ensures
            r == *self,
    {
        match self {
            Message::Input(input) => Message::Input(input.clone()),
            Message::Submit => Message::Submit,
            Message::BreachResult(outcome) => Message::BreachResult(
                match outcome {
                    Ok(breach) => Ok(*breach),
                    Err(error) => Err(error.clone()),
                },
            ),
            Message::ShowPassword(show) => Message::ShowPassword(*show),
        }
    }
}

/// The application state behind the display: the password being typed, its
/// digest, whether it is shown in clear, and the current lookup outcome.
/// There is one writer at a time; the display only reads it.
#[derive(Debug)]
pub struct App {
    /// The password as currently typed.
    pub password: String,
    /// The digest of `password`, kept in step with every edit.
    pub current_hash: String,
    /// Whether the password is displayed in clear text.
    pub show: bool,
    /// The current lookup outcome.
    pub state: SearchResult,
}

impl Default for App {
    /// The initial state: empty input, empty digest, password hidden,
    /// nothing submitted.
    fn default() -> (r: Self)
        ensures
            r.password@ == Seq::<char>::empty(),
            r.current_hash@ == Seq::<char>::empty(),
            r.show == false,
            r.state is NotSubmitted,
    {
        App {
            password: String::new(),
            current_hash: String::new(),
            show: false,
            state: SearchResult::NotSubmitted,
        }
    }
}

impl App {
    /// One transition of the lookup lifecycle. Editing the input recomputes
    /// the digest and resets any previous outcome to `NotSubmitted`;
    /// submitting marks the lookup in flight and asks the caller to fetch
    /// the candidates for the current password's digest; a returned result
    /// or error becomes the outcome; toggling visibility touches nothing
    /// else.
    pub fn update(&mut self, message: Message) -> (action: Action)
        ensures
            match message {
                Message::Input(input) => {
                    &&& final(self).password == input
                    &&& final(self).current_hash@ == spec_digest(input@)
                    &&& final(self).state is NotSubmitted
                    &&& final(self).show == old(self).show
                    &&& action is Idle
                },
                Message::Submit => {
                    &&& final(self).state is Searching
                    &&& final(self).password == old(self).password
                    &&& final(self).current_hash == old(self).current_hash
                    &&& final(self).show == old(self).show
                    &&& action matches Action::Fetch(h) && h@ == spec_digest(old(self).password@)
                },
                Message::BreachResult(outcome) => {
                    &&& final(self).password == old(self).password
                    &&& final(self).current_hash == old(self).current_hash
                    &&& final(self).show == old(self).show
                    &&& action is Idle
                    &&& match outcome {
                        Ok(breach) => final(self).state == SearchResult::Breaches(breach),
                        Err(error) => final(self).state == SearchResult::Errored(error),
                    }
                },
                Message::ShowPassword(show) => {
                    &&& final(self).show == show
                    &&& final(self).password == old(self).password
                    &&& final(self).current_hash == old(self).current_hash
                    &&& final(self).state == old(self).state
                    &&& action is Idle
                },
            },
    {
        match message {
            Message::Input(input) => {
                self.password = input;
                self.current_hash = hash_password(self.password.as_str());
                self.state = SearchResult::NotSubmitted;
                Action::Idle
            },
            Message::Submit => {
                self.state = SearchResult::Searching;
                let hash = hash_password(self.password.as_str());
                Action::Fetch(hash)
            },
            Message::BreachResult(outcome) => {
                match outcome {
                    Ok(breach) => {
                        self.state = SearchResult::Breaches(breach);
                    },
                    Err(error) => {
                        self.state = SearchResult::Errored(error);
                    },
                }
                Action::Idle
            },
            Message::ShowPassword(show) => {
                self.show = show;
                Action::Idle
            },
        }
    }
}

} // verus!
