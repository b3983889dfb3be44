//! What the host can set before a game starts.

use vstd::prelude::*;

verus! {

/// The way a game is played.
#[derive(Debug, Clone, Copy, PartialEq, Eq, Structural)]
pub enum GameMode {
    Default,
}

/// The settings of a room. `drawing_decks_included` lists deck names, each
/// with whether the game draws prompts from it.
#[derive(Debug)]
pub struct GameSettings {
    pub mode: GameMode,
    pub rounds: usize,
    pub drawing_phase_time_limit_seconds: Option<u32>,
    pub voting_phase_time_limit_seconds: Option<u32>,
    pub drawing_decks_included: Vec<(String, bool)>,
}

/// Mathematical value of [`GameSettings`].
pub struct GameSettingsSpec {
    pub mode: GameMode,
    pub rounds: usize,
    pub drawing_phase_time_limit_seconds: Option<u32>,
    pub voting_phase_time_limit_seconds: Option<u32>,
    pub drawing_decks_included: Seq<(Seq<char>, bool)>,
}

impl DeepView for GameSettings {
    type V = GameSettingsSpec;

    open spec fn deep_view(&self) -> GameSettingsSpec {
        GameSettingsSpec {
            mode: self.mode,
            rounds: self.rounds,
            drawing_phase_time_limit_seconds: self.drawing_phase_time_limit_seconds,
            voting_phase_time_limit_seconds: self.voting_phase_time_limit_seconds,
            drawing_decks_included: self.drawing_decks_included.deep_view(),
        }
    }
}

/// The most rounds a game can have.
pub const MAX_ROUNDS: usize = 25;

/// The longest a phase can be allowed to take, in seconds.
pub const MAX_PHASE_SECONDS: u32 = 300;

/// Whether `name` is in after the entries of `updates` were applied, one
/// after the other, to a deck that was in or out as `current` says. The last
/// entry for a name decides.
pub open spec fn included_after(updates: Seq<(Seq<char>, bool)>, name: Seq<char>, current: bool) -> bool
    decreases updates.len(),
{
    if updates.len() == 0 {
        current
    } else if updates.last().0 == name {
        updates.last().1
    } else {
        included_after(updates.drop_last(), name, current)
    }
}

/// The deck list after `updates` were applied: same names, same order.
pub open spec fn merged_decks(decks: Seq<(Seq<char>, bool)>, updates: Seq<(Seq<char>, bool)>) -> Seq<
    (Seq<char>, bool),
> {
    Seq::new(decks.len(), |i: int| (decks[i].0, included_after(updates, decks[i].0, decks[i].1)))
}

/// Whether `updates` switch off every deck that is in.
pub open spec fn removes_all_decks(decks: Seq<(Seq<char>, bool)>, updates: Seq<(Seq<char>, bool)>) -> bool {
    forall|i: int| 0 <= i < decks.len() && decks[i].1 ==> !included_after(updates, decks[i].0, true)
}

/// Whether some deck is in.
pub open spec fn some_deck_included(decks: Seq<(Seq<char>, bool)>) -> bool {
    exists|i: int| 0 <= i < decks.len() && decks[i].1
}

/// Whether `name` is in after `updates`, given that it is in or out as `current` says.
pub fn compute_included_after(updates: &Vec<(String, bool)>, name: &String, current: bool) -> (r: bool)
    ensures
        r == included_after(updates.deep_view(), name@, current),
{
    let mut i: usize = updates.len();
    assert(updates.deep_view().take(i as int) =~= updates.deep_view());
    while i > 0
        invariant
            i <= updates.len(),
            included_after(updates.deep_view(), name@, current) == included_after(
                updates.deep_view().take(i as int),
                name@,
                current,
            ),
        decreases i,
    {
        proof {
            let head = updates.deep_view().take(i as int);
            assert(head.last() == updates.deep_view()[i - 1]);
            assert(head.drop_last() =~= updates.deep_view().take(i - 1));
        }
        if updates[i - 1].0 == *name {
            return updates[i - 1].1;
        }
        i -= 1;
    }
    assert(updates.deep_view().take(0).len() == 0);
    current
}

impl GameSettings {
    /// A copy of the settings.
    pub fn duplicate(&self) -> (r: GameSettings)
        ensures
            r.deep_view() == self.deep_view(),
    {
        let mut decks: Vec<(String, bool)> = Vec::new();
        let mut i: usize = 0;
        while i < self.drawing_decks_included.len()
            invariant
                i <= self.drawing_decks_included.len(),
                decks.len() == i,
                forall|j: int|
                    0 <= j < i ==> (#[trigger] decks@[j]).deep_view()
                        == self.drawing_decks_included@[j].deep_view(),
            decreases self.drawing_decks_included.len() - i,
        {
            let name = self.drawing_decks_included[i].0.clone();
            decks.push((name, self.drawing_decks_included[i].1));
            i += 1;
        }
        assert(decks.deep_view() =~= self.drawing_decks_included.deep_view());
        GameSettings {
            mode: self.mode,
            rounds: self.rounds,
            drawing_phase_time_limit_seconds: self.drawing_phase_time_limit_seconds,
            voting_phase_time_limit_seconds: self.voting_phase_time_limit_seconds,
            drawing_decks_included: decks,
        }
    }
}

/// Where some deck stays in, some deck is in afterwards.
pub proof fn lemma_merge_keeps_a_deck(decks: Seq<(Seq<char>, bool)>, updates: Seq<(Seq<char>, bool)>)
    requires
        some_deck_included(decks),
        !removes_all_decks(decks, updates),
    ensures
        some_deck_included(merged_decks(decks, updates)),
{
    let i = choose|i: int| 0 <= i < decks.len() && decks[i].1 && included_after(updates, decks[i].0, true);
    assert(merged_decks(decks, updates)[i].1);
}

/// The names of the decks that are in, in their order.
pub open spec fn included_names(decks: Seq<(Seq<char>, bool)>) -> Seq<Seq<char>>
    decreases decks.len(),
{
    if decks.len() == 0 {
        Seq::empty()
    } else if decks.last().1 {
        included_names(decks.drop_last()).push(decks.last().0)
    } else {
        included_names(decks.drop_last())
    }
}

impl GameSettings {
    /// The names of the decks that the game draws prompts from.
    pub fn included_deck_names(&self) -> (names: Vec<String>)
        ensures
            names.deep_view() == included_names(self.deep_view().drawing_decks_included),
    {
        let ghost decks = self.drawing_decks_included.deep_view();
        let mut names: Vec<String> = Vec::new();
        let mut i: usize = 0;
        assert(names.deep_view() =~= included_names(decks.take(0)));
        while i < self.drawing_decks_included.len()
            invariant
                i <= self.drawing_decks_included.len(),
                decks == self.drawing_decks_included.deep_view(),
                names.deep_view() == included_names(decks.take(i as int)),
            decreases self.drawing_decks_included.len() - i,
        {
            proof {
                assert(decks.take(i + 1).drop_last() =~= decks.take(i as int));
                assert(decks.take(i + 1).last() == decks[i as int]);
            }
            if self.drawing_decks_included[i].1 {
                let ghost so_far = names.deep_view();
                names.push(self.drawing_decks_included[i].0.clone());
                assert(names.deep_view() =~= so_far.push(decks[i as int].0));
            }
            i += 1;
        }
        assert(decks.take(i as int) =~= decks);
        names
    }

    /// Whether `updates` switch off every deck that is in.
    pub fn removes_all(&self, updates: &Vec<(String, bool)>) -> (r: bool)
        ensures
            r == removes_all_decks(self.deep_view().drawing_decks_included, updates.deep_view()),
    {
        let ghost decks = self.drawing_decks_included.deep_view();
        let mut i: usize = 0;
        while i < self.drawing_decks_included.len()
            invariant
                i <= self.drawing_decks_included.len(),
                decks == self.drawing_decks_included.deep_view(),
                forall|j: int|
                    0 <= j < i && decks[j].1 ==> !included_after(updates.deep_view(), decks[j].0, true),
            decreases self.drawing_decks_included.len() - i,
        {
            if self.drawing_decks_included[i].1 && compute_included_after(
                updates,
                &self.drawing_decks_included[i].0,
                true,
            ) {
                assert(decks[i as int].1 && included_after(
                    updates.deep_view(),
                    decks[i as int].0,
                    true,
                ));
                return false;
            }
            i += 1;
        }
        true
    }

    /// The deck list after `updates` were applied.
    pub fn merged(&self, updates: &Vec<(String, bool)>) -> (r: Vec<(String, bool)>)
        ensures
            r.deep_view() == merged_decks(
                self.deep_view().drawing_decks_included,
                updates.deep_view(),
            ),
    {
        let ghost decks = self.drawing_decks_included.deep_view();
        let mut r: Vec<(String, bool)> = Vec::new();
        let mut i: usize = 0;
        while i < self.drawing_decks_included.len()
            invariant
                i <= self.drawing_decks_included.len(),
                decks == self.drawing_decks_included.deep_view(),
                r.len() == i,
                forall|j: int|
                    0 <= j < i ==> (#[trigger] r@[j]).deep_view() == (
                        decks[j].0,
                        included_after(updates.deep_view(), decks[j].0, decks[j].1),
                    ),
            decreases self.drawing_decks_included.len() - i,
        {
            let included = compute_included_after(
                updates,
                &self.drawing_decks_included[i].0,
                self.drawing_decks_included[i].1,
            );
            r.push((self.drawing_decks_included[i].0.clone(), included));
            i += 1;
        }
        assert(r.deep_view() =~= merged_decks(decks, updates.deep_view()));
        r
    }
}

} // verus!
