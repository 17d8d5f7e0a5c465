//! The interaction state machine: the query, the ranked list and the
//! selection, and what each action of the user does to them.

use crate::history::History;
use crate::providers::{ItemView, ProviderItem, ProviderType};
use crate::ranking::{is_ranking, lemma_ranking_unique, lists_matches, rank, scores};
use crate::text::str_eq;
use vstd::prelude::*;

verus! {

/// What the user can do.
pub enum Action {
    /// Move the selection up.
    NavUp,
    /// Move the selection down.
    NavDown,
    /// The query text has changed to this.
    Search(String),
    /// Complete the query to the selected candidate.
    Complete,
    /// Run what is selected.
    Execute,
    /// Leave without running anything.
    Exit,
}

/// What the caller is to do after an action.
pub enum Outcome {
    /// Nothing has changed.
    Idle,
    /// The state has changed and is to be shown again.
    Redraw,
    /// Hand this item to the consumer; the interaction is over.
    Launch(ProviderItem),
    /// The interaction is over and nothing is run.
    Exit,
}

/// The state of the interaction as plain values.
pub struct LauncherView {
    /// The candidates, in the order of enumeration.
    pub candidates: Seq<ProviderItem>,
    /// The usage counts by which the candidates are weighted.
    pub history: Map<Seq<char>, usize>,
    /// The text of the query as it is shown.
    pub query: Seq<char>,
    /// The query for which the ranked list was computed.
    pub searched: Seq<char>,
    /// The ranked list: places of candidates, best first.
    pub ranked: Seq<usize>,
    /// The place in the ranked list that is selected.
    pub selection: usize,
    /// Whether the typed query itself, and no candidate, is what would be run.
    pub select_query: bool,
}

impl LauncherView {
    /// The name of the candidate at place `k` of the ranked list.
    pub open spec fn name_at(self, k: int) -> Seq<char> {
        self.candidates[self.ranked[k] as int].name@
    }

    /// After `NavUp`: the selection moves up if it can; at the top, a query
    /// that is not empty becomes what is selected.
    pub open spec fn nav_up(self) -> LauncherView {
        if self.selection > 0 {
            LauncherView { selection: (self.selection - 1) as usize, ..self }
        } else if self.query.len() > 0 {
            LauncherView { select_query: true, ..self }
        } else {
            self
        }
    }

    /// After `NavDown`: from the query the selection goes to the first
    /// candidate, if there is one; else it moves down, but not past the end.
    pub open spec fn nav_down(self) -> LauncherView {
        if self.select_query && self.ranked.len() > 0 {
            LauncherView { select_query: false, ..self }
        } else if self.ranked.len() > 0 && self.selection < self.ranked.len() - 1 {
            LauncherView { selection: (self.selection + 1) as usize, ..self }
        } else {
            self
        }
    }

    /// Whether `after` is the state after `Search` with `query`: the list is
    /// the ranking for the new query, the selection is at its top, and the
    /// query itself is selected exactly if the list is empty.
    pub open spec fn searched_to(self, query: Seq<char>, after: LauncherView) -> bool {
        &&& after.candidates == self.candidates
        &&& after.history == self.history
        &&& after.query == query
        &&& after.searched == query
        &&& is_ranking(after.ranked, scores(self.candidates, query, self.history))
        &&& lists_matches(after.ranked, self.candidates, query)
        &&& after.ranked.len() <= usize::MAX
        &&& after.selection == 0
        &&& after.select_query == (after.ranked.len() == 0)
    }

    /// The place that is selected after `Complete`: the next one if the
    /// query already is the selected name and there is a next one.
    pub open spec fn completed_selection(self) -> usize {
        if self.query == self.name_at(self.selection as int) && self.selection + 1
            < self.ranked.len() {
            (self.selection + 1) as usize
        } else {
            self.selection
        }
    }

    /// After `Complete`: unless the query itself is selected, the query
    /// becomes the name of the selected candidate; a second `Complete` first
    /// moves on to the next candidate. The ranked list stays as it is.
    pub open spec fn complete(self) -> LauncherView {
        if self.select_query {
            self
        } else {
            let selection = self.completed_selection();
            LauncherView { query: self.name_at(selection as int), selection, ..self }
        }
    }

    /// The item that `Execute` hands over: the typed query as a command
    /// line of its own, or the selected candidate.
    pub open spec fn chosen(self) -> ItemView {
        if self.select_query {
            ItemView {
                name: self.query,
                provider_type: ProviderType::PATH,
                executable: Some(self.query),
                base_score: 1,
            }
        } else {
            self.candidates[self.ranked[self.selection as int] as int]@
        }
    }

    /// What holds of every state: the list is the ranking for the query
    /// that was last searched, its length is one that a machine can count,
    /// and the selection is the query itself or a place in the list; while
    /// the query is selected the place is 0.
    pub open spec fn wf(self) -> bool {
        &&& is_ranking(self.ranked, scores(self.candidates, self.searched, self.history))
        &&& lists_matches(self.ranked, self.candidates, self.searched)
        &&& self.ranked.len() <= usize::MAX
        &&& self.select_query || self.selection < self.ranked.len()
        &&& self.select_query ==> self.selection == 0
    }
}

/// The part of the ranked list that is shown where `max_entries` lines fit:
/// the places from the first of the pair up to, not including, the second.
/// The list scrolls once the selection has passed the middle of what fits.
pub open spec fn window(selection: int, len: int, max_entries: int) -> (int, int) {
    let offset = if selection > max_entries / 2 {
        selection - max_entries / 2
    } else {
        0
    };
    let end = if max_entries + offset < len {
        max_entries + offset
    } else {
        len
    };
    if offset < end {
        (offset, end)
    } else {
        (end, end)
    }
}

/// Searching twice for the same query gives the same state as searching
/// once: the same ranked list, with the selection at 0 both times.
pub proof fn lemma_search_idempotent(
    start: LauncherView,
    query: Seq<char>,
    once: LauncherView,
    twice: LauncherView,
)
    requires
        start.searched_to(query, once),
        once.searched_to(query, twice),
    ensures
        once.ranked == twice.ranked,
        once.selection == 0,
        twice.selection == 0,
        once == twice,
{
    lemma_ranking_unique(once.ranked, twice.ranked, scores(start.candidates, query, start.history));
}

/// The ranked list depends on the candidates, the history and the query
/// alone, not on the state in which the search starts.
pub proof fn lemma_search_determined(
    a: LauncherView,
    b: LauncherView,
    query: Seq<char>,
    after_a: LauncherView,
    after_b: LauncherView,
)
    requires
        a.candidates == b.candidates,
        a.history == b.history,
        a.searched_to(query, after_a),
        b.searched_to(query, after_b),
    ensures
        after_a == after_b,
{
    lemma_ranking_unique(after_a.ranked, after_b.ranked, scores(a.candidates, query, a.history));
}

/// Every action keeps the state well formed.
pub proof fn lemma_steps_keep_wf(state: LauncherView)
    requires
        state.wf(),
    ensures
        state.nav_up().wf(),
        state.nav_down().wf(),
        state.complete().wf(),
        forall|query: Seq<char>, after: LauncherView|
            state.searched_to(query, after) ==> after.wf(),
{
}

/// In a well-formed state the selection moves by one place at a time:
/// `NavDown` on a candidate that is not the last selects the next one,
/// `NavUp` on one that is not the first selects the one before, and
/// `Complete` moves on by one exactly if the query already is the selected
/// name and another candidate follows.
pub proof fn lemma_moves_by_one(state: LauncherView)
    requires
        state.wf(),
    ensures
        !state.select_query && state.selection + 1 < state.ranked.len()
            ==> state.nav_down().selection == state.selection + 1,
        state.selection > 0 ==> state.nav_up().selection == state.selection - 1,
        !state.select_query ==> state.complete().selection == if state.query == state.name_at(
            state.selection as int,
        ) && state.selection + 1 < state.ranked.len() {
            state.selection + 1
        } else {
            state.selection as int
        },
{
}

/// The state of one interaction.
pub struct Launcher {
    candidates: Vec<ProviderItem>,
    history: History,
    query: String,
    searched: Ghost<Seq<char>>,
    ranked: Vec<usize>,
    selection: usize,
    select_query: bool,
}

impl View for Launcher {
    type V = LauncherView;

    closed spec fn view(&self) -> LauncherView {
        LauncherView {
            candidates: self.candidates@,
            history: self.history@,
            query: self.query@,
            searched: self.searched@,
            ranked: self.ranked@,
            selection: self.selection,
            select_query: self.select_query,
        }
    }
}

impl Launcher {
    /// What holds of every launcher between calls.
    pub closed spec fn wf(&self) -> bool {
        &&& self.history.wf()
        &&& self@.wf()
    }

    /// A launcher is well formed exactly as its state is.
    pub proof fn lemma_wf(&self)
        requires
            self.wf(),
        ensures
            self@.wf(),
    {
    }

    /// The start of an interaction: the empty query, all candidates ranked
    /// by their usage, the best one selected. Without any candidate the
    /// query itself is selected.
    pub fn new(candidates: Vec<ProviderItem>, history: History) -> (launcher: Launcher)
        requires
            history.wf(),
        ensures
            launcher.wf(),
            launcher@.candidates == candidates@,
            launcher@.history == history@,
            launcher@.query == Seq::<char>::empty(),
            launcher@.searched == Seq::<char>::empty(),
            is_ranking(launcher@.ranked, scores(candidates@, Seq::<char>::empty(), history@)),
            forall|i: usize| i < candidates@.len() ==> #[trigger] launcher@.ranked.contains(i),
            launcher@.selection == 0,
            launcher@.select_query == (launcher@.ranked.len() == 0),
    {
        let query = String::new();
        let ranked = rank(&candidates, query.as_str(), &history);
        let select_query = ranked.len() == 0;
        Launcher {
            candidates,
            history,
            query,
            searched: Ghost(Seq::<char>::empty()),
            ranked,
            selection: 0,
            select_query,
        }
    }

    /// The text of the query.
    pub fn query(&self) -> (text: &String)
        ensures
            text@ == self@.query,
    {
        &self.query
    }

    /// The selected place in the ranked list.
    pub fn selection_index(&self) -> (index: usize)
        ensures
            index == self@.selection,
    {
        self.selection
    }

    /// Whether the query itself is selected.
    pub fn select_query_mode(&self) -> (on: bool)
        ensures
            on == self@.select_query,
    {
        self.select_query
    }

    /// The number of candidates in the ranked list.
    pub fn ranked_len(&self) -> (n: usize)
        ensures
            n == self@.ranked.len(),
    {
        self.ranked.len()
    }

    /// The candidate at place `k` of the ranked list.
    pub fn ranked_item(&self, k: usize) -> (item: &ProviderItem)
        requires
            self.wf(),
            k < self@.ranked.len(),
        ensures
            self@.ranked[k as int] < self@.candidates.len(),
            *item == self@.candidates[self@.ranked[k as int] as int],
    {
        &self.candidates[self.ranked[k]]
    }

    /// The names of the ranked list, best first, as they are to be shown.
    pub fn ranked_names(&self) -> (names: Vec<String>)
        requires
            self.wf(),
        ensures
            names@.len() == self@.ranked.len(),
            forall|k: int| 0 <= k < names@.len() ==> (#[trigger] names@[k])@ == self@.name_at(k),
    {
        let mut names: Vec<String> = Vec::new();
        let mut k: usize = 0;
        while k < self.ranked.len()
            invariant
                self.wf(),
                k <= self.ranked@.len(),
                names@.len() == k,
                forall|p: int| 0 <= p < k ==> (#[trigger] names@[p])@ == self@.name_at(p),
            decreases self.ranked@.len() - k,
        {
            names.push(self.ranked_item(k).name.clone());
            k = k + 1;
        }
        names
    }

    /// The places of the ranked list that are to be shown where
    /// `max_entries` lines fit: from `first` up to, not including, `end`.
    pub fn visible(&self, max_entries: usize) -> (shown: (usize, usize))
        ensures
            (shown.0 as int, shown.1 as int) == window(
                self@.selection as int,
                self@.ranked.len() as int,
                max_entries as int,
            ),
            shown.0 <= shown.1 <= self@.ranked.len(),
    {
        let half = max_entries / 2;
        let offset = if self.selection > half {
            self.selection - half
        } else {
            0
        };
        let len = self.ranked.len();
        let end = if offset >= len || max_entries >= len - offset {
            len
        } else {
            max_entries + offset
        };
        if offset < end {
            (offset, end)
        } else {
            (end, end)
        }
    }

    /// Moves the selection up.
    pub fn nav_up(&mut self)
        requires
            old(self).wf(),
        ensures
            final(self).wf(),
            final(self)@ == old(self)@.nav_up(),
    {
        if self.selection > 0 {
            self.selection = self.selection - 1;
        } else if !self.query.as_str().is_empty() {
            self.select_query = true;
        }
    }

    /// Moves the selection down.
    pub fn nav_down(&mut self)
        requires
            old(self).wf(),
        ensures
            final(self).wf(),
            final(self)@ == old(self)@.nav_down(),
    {
        if self.select_query && self.ranked.len() > 0 {
            self.select_query = false;
        } else if self.ranked.len() > 0 && self.selection < self.ranked.len() - 1 {
            self.selection = self.selection + 1;
        }
    }

    /// Takes the changed query, ranks the candidates anew and selects the
    /// best one, or the query itself if nothing matches.
    pub fn search(&mut self, query: String)
        requires
            old(self).wf(),
        ensures
            final(self).wf(),
            old(self)@.searched_to(query@, final(self)@),
    {
        let ranked = rank(&self.candidates, query.as_str(), &self.history);
        self.select_query = ranked.len() == 0;
        self.selection = 0;
        self.searched = Ghost(query@);
        self.ranked = ranked;
        self.query = query;
    }

    /// Completes the query to the selected candidate, or to the next one if
    /// the query already is the selected candidate's name.
    pub fn complete(&mut self) -> (changed: bool)
        requires
            old(self).wf(),
        ensures
            final(self).wf(),
            final(self)@ == old(self)@.complete(),
            changed == !old(self)@.select_query,
    {
        if self.select_query {
            return false;
        }
        let current = self.ranked_item(self.selection);
        if str_eq(self.query.as_str(), current.name.as_str()) && self.selection
            < self.ranked.len() - 1 {
            self.selection = self.selection + 1;
        }
        let name = self.ranked_item(self.selection).name.clone();
        self.query = name;
        true
    }

    /// The item that is to be run: the typed query, or the selected candidate.
    pub fn execute(&self) -> (item: ProviderItem)
        requires
            self.wf(),
        ensures
            item@ == self@.chosen(),
    {
        if self.select_query {
            ProviderItem::from_query(self.query.as_str())
        } else {
            self.ranked_item(self.selection).clone()
        }
    }

    /// Applies one action and says what the caller is to do next.
    pub fn step(&mut self, action: Action) -> (outcome: Outcome)
        requires
            old(self).wf(),
        ensures
            final(self).wf(),
            match action {
                Action::NavUp => final(self)@ == old(self)@.nav_up() && outcome is Redraw,
                Action::NavDown => final(self)@ == old(self)@.nav_down() && outcome is Redraw,
                Action::Search(query) => old(self)@.searched_to(query@, final(self)@)
                    && outcome is Redraw,
                Action::Complete => final(self)@ == old(self)@.complete() && if old(
                    self,
                )@.select_query {
                    outcome is Idle
                } else {
                    outcome is Redraw
                },
                Action::Execute => final(self)@ == old(self)@ && (outcome matches Outcome::Launch(
                    item,
                ) && item@ == old(self)@.chosen()),
                Action::Exit => final(self)@ == old(self)@ && outcome is Exit,
            },
    {
        match action {
            Action::NavUp => {
                self.nav_up();
                Outcome::Redraw
            },
            Action::NavDown => {
                self.nav_down();
                Outcome::Redraw
            },
            Action::Search(query) => {
                self.search(query);
                Outcome::Redraw
            },
            Action::Complete => {
                if self.complete() {
                    Outcome::Redraw
                } else {
                    Outcome::Idle
                }
            },
            Action::Execute => Outcome::Launch(self.execute()),
            Action::Exit => Outcome::Exit,
        }
    }
}

} // verus!
