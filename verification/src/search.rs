//! The search box of a client: which completions match the term that is
//! typed in, and when the box asks for more.

use vstd::prelude::*;

use crate::name_index::Entry;
use crate::names::{same, starts_with};

verus! {

/// The places of the completions that start with `term`, in their order.
pub open spec fn matches_of(completions: Seq<Entry>, term: Seq<char>) -> Seq<usize>
    decreases completions.len(),
{
    if completions.len() == 0 {
        Seq::empty()
    } else if term.is_prefix_of(completions.last().0) {
        matches_of(completions.drop_last(), term).push((completions.len() - 1) as usize)
    } else {
        matches_of(completions.drop_last(), term)
    }
}

/// The vertex of the last completion that is `term` itself.
pub open spec fn exact_of(completions: Seq<Entry>, term: Seq<char>) -> Option<u128>
    decreases completions.len(),
{
    if completions.len() == 0 {
        None
    } else if completions.last().0 == term {
        Some(completions.last().1)
    } else {
        exact_of(completions.drop_last(), term)
    }
}

/// What a search box is made of, or changed by.
#[derive(Clone, Debug)]
pub struct Props {
    pub term: String,
    pub completions: Option<Vec<(String, u128)>>,
}

/// What a search box shows and knows.
#[derive(Clone, Debug)]
pub struct Search {
    /// What is typed in.
    pub term: String,
    /// The names that the term can be completed to, each with its vertex.
    pub completions: Vec<(String, u128)>,
    /// The places of the completions that start with the term.
    pub matches: Vec<usize>,
    /// Whether the list of matches is shown.
    pub show_compls: bool,
    /// The vertex whose name the term is.
    pub exact_match: Option<u128>,
}

/// What happens to a search box.
#[derive(Clone, Debug)]
pub enum Msg {
    /// The term was changed.
    Term(String),
    /// The completion at a place was chosen, with its vertex.
    ChooseCompl(usize, u128),
    /// The box lost the focus.
    Blur,
}

/// What a search box asks for after a message.
#[derive(Clone, Debug)]
pub struct Requests {
    /// The box has to be drawn again.
    pub render: bool,
    /// More completions are needed for this term.
    pub need_more: Option<String>,
    /// This vertex was matched.
    pub matched: Option<u128>,
}

/// A search box as a plain value.
pub struct SearchView {
    pub term: Seq<char>,
    pub completions: Seq<Entry>,
    pub matches: Seq<usize>,
    pub show_compls: bool,
    pub exact_match: Option<u128>,
}

/// What a search box asks for, as a plain value.
pub struct EffectView {
    pub render: bool,
    pub need_more: Option<Seq<char>>,
    pub matched: Option<u128>,
}

impl View for Search {
    type V = SearchView;

    open spec fn view(&self) -> SearchView {
        SearchView {
            term: self.term@,
            completions: self.completions.deep_view(),
            matches: self.matches@,
            show_compls: self.show_compls,
            exact_match: self.exact_match,
        }
    }
}

impl View for Requests {
    type V = EffectView;

    open spec fn view(&self) -> EffectView {
        EffectView {
            render: self.render,
            need_more: match self.need_more {
                Some(term) => Some(term@),
                None => None,
            },
            matched: self.matched,
        }
    }
}

/// The box with the matches of its term among its completions.
pub open spec fn filtered(state: SearchView) -> SearchView {
    SearchView {
        matches: matches_of(state.completions, state.term),
        exact_match: exact_of(state.completions, state.term),
        ..state
    }
}

/// The box after the term was changed to `term`.
pub open spec fn after_term(state: SearchView, term: Seq<char>) -> SearchView {
    if term == state.term {
        state
    } else {
        let typed = filtered(SearchView { term, ..state });
        SearchView { show_compls: state.show_compls || typed.matches.len() > 0, ..typed }
    }
}

/// What the box asks for after the term was changed to `term`: more
/// completions where fewer than five match, and the vertex that the term
/// names.
pub open spec fn effect_of_term(state: SearchView, term: Seq<char>) -> EffectView {
    if term == state.term {
        EffectView { render: false, need_more: None, matched: None }
    } else {
        let typed = filtered(SearchView { term, ..state });
        EffectView {
            render: true,
            need_more: if typed.matches.len() < 5 {
                Some(term)
            } else {
                None
            },
            matched: typed.exact_match,
        }
    }
}

impl Search {
    /// A box with the term and the completions of `p`, its list not shown.
    pub fn create(p: Props) -> (state: Search)
        ensures
            state@ == filtered(
                SearchView {
                    term: p.term@,
                    completions: match p.completions {
                        Some(list) => list.deep_view(),
                        None => Seq::empty(),
                    },
                    matches: Seq::empty(),
                    show_compls: false,
                    exact_match: None,
                },
            ),
    {
        let completions = match p.completions {
            Some(list) => list,
            None => {
                let none: Vec<(String, u128)> = Vec::new();
                assert(none.deep_view() =~= Seq::<Entry>::empty());
                none
            },
        };
        let mut state = Search {
            term: p.term,
            completions,
            matches: Vec::new(),
            show_compls: false,
            exact_match: None,
        };
        state.filter_compls();
        state
    }

    /// Finds the completions that start with the term, and the vertex of
    /// the one that is the term.
    pub fn filter_compls(&mut self)
        ensures
            final(self)@ == filtered(old(self)@),
    {
        let ghost all = self.completions.deep_view();
        let mut matches: Vec<usize> = Vec::new();
        let mut exact: Option<u128> = None;
        let mut i: usize = 0;
        while i < self.completions.len()
            invariant
                0 <= i <= self.completions.len(),
                *self == *old(self),
                all == self.completions.deep_view(),
                matches@ == matches_of(all.take(i as int), self.term@),
                exact == exact_of(all.take(i as int), self.term@),
            decreases self.completions.len() - i,
        {
            proof {
                assert(all.take(i + 1).drop_last() =~= all.take(i as int));
            }
            if starts_with(self.completions[i].0.as_str(), self.term.as_str()) {
                matches.push(i);
                if same(self.completions[i].0.as_str(), self.term.as_str()) {
                    exact = Some(self.completions[i].1);
                }
            }
            i = i + 1;
        }
        assert(all.take(i as int) =~= all);
        self.matches = matches;
        self.exact_match = exact;
    }

    /// Takes a message. A completion can be chosen only at a place that has
    /// one.
    pub fn update(&mut self, msg: Msg) -> (effect: Requests)
        requires
            msg matches Msg::ChooseCompl(place, _) ==> place < old(self).completions.len(),
        ensures
            match msg {
                Msg::Term(term) => {
                    &&& final(self)@ == after_term(old(self)@, term@)
                    &&& effect@ == effect_of_term(old(self)@, term@)
                },
                Msg::ChooseCompl(place, vertex) => {
                    &&& final(self)@ == SearchView {
                        term: old(self)@.completions[place as int].0,
                        show_compls: false,
                        ..old(self)@
                    }
                    &&& effect@ == EffectView {
                        render: true,
                        need_more: None,
                        matched: Some(vertex),
                    }
                },
                Msg::Blur => {
                    &&& final(self)@ == SearchView { show_compls: false, ..old(self)@ }
                    &&& effect@ == EffectView {
                        render: old(self).show_compls,
                        need_more: None,
                        matched: None,
                    }
                },
            },
    {
        match msg {
            Msg::Term(term) => {
                if same(term.as_str(), self.term.as_str()) {
                    return Requests { render: false, need_more: None, matched: None };
                }
                self.term = term;
                self.filter_compls();
                let need_more = if self.matches.len() < 5 {
                    Some(self.term.clone())
                } else {
                    None
                };
                if self.matches.len() > 0 {
                    self.show_compls = true;
                }
                Requests { render: true, need_more, matched: self.exact_match }
            },
            Msg::ChooseCompl(place, vertex) => {
                self.show_compls = false;
                self.term = self.completions[place].0.clone();
                Requests { render: true, need_more: None, matched: Some(vertex) }
            },
            Msg::Blur => {
                let shown = self.show_compls;
                self.show_compls = false;
                Requests { render: shown, need_more: None, matched: None }
            },
        }
    }

    /// Takes the completions of `p`, if it has any, and tells whether the box
    /// has to be drawn again. The term stays as it is.
    pub fn change(&mut self, p: Props) -> (render: bool)
        ensures
            render == p.completions.is_some(),
            final(self)@ == match p.completions {
                Some(list) => filtered(
                    SearchView { completions: list.deep_view(), ..old(self)@ },
                ),
                None => old(self)@,
            },
    {
        match p.completions {
            Some(list) => {
                self.completions = list;
                self.filter_compls();
                true
            },
            None => false,
        }
    }
}

} // verus!
