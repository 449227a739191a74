//! The recorded command history and navigation along its timeline.
//!
//! Commands are recorded under increasing timestamps; a view either follows
//! the latest state (rolling) or stays at one timestamp. Rebuilding the
//! world state for a view is left to the caller, which replays the history
//! up to that timestamp.
use vstd::prelude::*;

verus! {

/// A point of the recorded timeline.
pub type Timestamp = u64;

/// Which state of the history is shown.
#[derive(Debug, Clone, Copy, PartialEq, Eq, Structural)]
pub enum ViewMode {
    /// Follow the latest recorded state.
    Rolling,
    /// Stay at the state after the commands up to this timestamp.
    Specific(Timestamp),
}

impl Default for ViewMode {
    fn default() -> (r: Self)
        ensures
            r == ViewMode::Rolling,
    {
        ViewMode::Rolling
    }
}

/// The last timestamp of `ks` that lies strictly before `t`.
pub open spec fn latest_before(ks: Seq<u64>, t: u64) -> Option<u64>
    decreases ks.len(),
{
    if ks.len() == 0 {
        None
    } else if ks.last() < t {
        Some(ks.last())
    } else {
        latest_before(ks.drop_last(), t)
    }
}

/// The first timestamp of `ks` that lies strictly after `t`.
pub open spec fn earliest_after(ks: Seq<u64>, t: u64) -> Option<u64>
    decreases ks.len(),
{
    if ks.len() == 0 {
        None
    } else if ks[0] > t {
        Some(ks[0])
    } else {
        earliest_after(ks.subrange(1, ks.len() as int), t)
    }
}

/// Number of commands in the first `i` entries of the history.
pub open spec fn commands_upto<C>(h: Seq<(u64, Vec<C>)>, i: int) -> int
    decreases i,
{
    if i <= 0 {
        0
    } else {
        commands_upto(h, i - 1) + h[i - 1].1@.len()
    }
}

proof fn lemma_commands_upto_monotone<C>(h: Seq<(u64, Vec<C>)>, i: int, j: int)
    requires
        0 <= i <= j <= h.len(),
    ensures
        0 <= commands_upto(h, i) <= commands_upto(h, j),
    decreases j,
{
    if i < j {
        lemma_commands_upto_monotone(h, i, j - 1);
    } else if i > 0 {
        lemma_commands_upto_monotone(h, i - 1, j - 1);
    }
}

/// The command history, keyed by timestamp, and the current view.
pub struct DataStore<C> {
    /// The shown state.
    pub current_view_mode: ViewMode,
    /// The recorded commands, by strictly increasing timestamp.
    pub command_history: Vec<(Timestamp, Vec<C>)>,
}

impl<C> Default for DataStore<C> {
    fn default() -> (r: Self)
        ensures
            r.current_view_mode == ViewMode::Rolling,
            r.command_history@.len() == 0,
    {
        DataStore { current_view_mode: ViewMode::Rolling, command_history: Vec::new() }
    }
}

impl<C> DataStore<C> {
    /// The recorded timestamps, in order.
    pub open spec fn keys(&self) -> Seq<u64> {
        self.command_history@.map_values(|e: (u64, Vec<C>)| e.0)
    }

    /// Timestamps strictly increase along the history.
    pub open spec fn wf(&self) -> bool {
        forall|i: int, j: int|
            0 <= i < j < self.keys().len() ==> #[trigger] self.keys()[i] < #[trigger] self.keys()[j]
    }

    /// The timestamp the view shows, if any.
    pub open spec fn position(&self) -> Option<u64> {
        match self.current_view_mode {
            ViewMode::Rolling => if self.keys().len() == 0 {
                None
            } else {
                Some(self.keys().last())
            },
            ViewMode::Specific(t) => Some(t),
        }
    }

    /// An empty history, viewed rolling.
    pub fn new() -> (r: Self)
        ensures
            r.current_view_mode == ViewMode::Rolling,
            r.command_history@.len() == 0,
            r.wf(),
    {
        Self::default()
    }

    /// Records `command` under the next timestamp: 0 for the first command,
    /// one past the latest otherwise. The view does not change.
    pub fn record_command(&mut self, command: C)
        requires
            old(self).wf(),
            old(self).keys().len() > 0 ==> old(self).keys().last() < u64::MAX,
        ensures
            final(self).wf(),
            final(self).current_view_mode == old(self).current_view_mode,
            final(self).keys() == old(self).keys().push(
                if old(self).keys().len() == 0 {
                    0
                } else {
                    (old(self).keys().last() + 1) as u64
                },
            ),
            final(self).command_history@.drop_last() == old(self).command_history@,
            final(self).command_history@.last().1@ == seq![command],
    {
        let n = self.command_history.len();
        let timestamp = if n == 0 {
            0
        } else {
            self.command_history[n - 1].0 + 1
        };
        let ghost old_keys = self.keys();
        let ghost old_history = self.command_history@;
        let mut commands: Vec<C> = Vec::new();
        commands.push(command);
        self.command_history.push((timestamp, commands));
        proof {
            assert(self.keys() =~= old_keys.push(timestamp));
            assert(self.command_history@.drop_last() =~= old_history);
            assert(commands@ =~= seq![command]);
        }
    }

    /// The timestamp the view shows: the latest one when rolling.
    pub fn current_timeline_position(&self) -> (r: Option<Timestamp>)
        ensures
            r == self.position(),
    {
        match self.current_view_mode {
            ViewMode::Rolling => {
                let n = self.command_history.len();
                if n == 0 {
                    None
                } else {
                    Some(self.command_history[n - 1].0)
                }
            },
            ViewMode::Specific(t) => Some(t),
        }
    }

    fn latest_key_before(&self, t: u64) -> (r: Option<u64>)
        ensures
            r == latest_before(self.keys(), t),
    {
        let ghost ks = self.keys();
        let mut i = self.command_history.len();
        assert(ks.subrange(0, i as int) =~= ks);
        while i > 0
            invariant
                i <= self.command_history.len(),
                ks == self.keys(),
                latest_before(ks.subrange(0, i as int), t) == latest_before(ks, t),
            decreases i,
        {
            let k = self.command_history[i - 1].0;
            assert(ks.subrange(0, i as int).last() == k);
            if k < t {
                return Some(k);
            }
            assert(ks.subrange(0, i as int).drop_last() =~= ks.subrange(0, i - 1));
            i -= 1;
        }
        assert(ks.subrange(0, 0).len() == 0);
        None
    }

    fn earliest_key_after(&self, t: u64) -> (r: Option<u64>)
        ensures
            r == earliest_after(self.keys(), t),
    {
        let ghost ks = self.keys();
        let n = self.command_history.len();
        let mut i: usize = 0;
        assert(ks.subrange(0, n as int) =~= ks);
        while i < n
            invariant
                i <= n == self.command_history.len() == ks.len(),
                ks == self.keys(),
                earliest_after(ks.subrange(i as int, n as int), t) == earliest_after(ks, t),
            decreases n - i,
        {
            let k = self.command_history[i].0;
            assert(ks.subrange(i as int, n as int)[0] == k);
            if k > t {
                return Some(k);
            }
            assert(ks.subrange(i as int, n as int).subrange(1, n - i) =~= ks.subrange(i + 1, n as int));
            i += 1;
        }
        None
    }

    /// Whether there is an earlier state to step back to.
    pub fn can_step_backward(&self) -> (r: bool)
        ensures
            r == match self.current_view_mode {
                ViewMode::Rolling => self.keys().len() > 0,
                ViewMode::Specific(t) => latest_before(self.keys(), t) is Some,
            },
    {
        match self.current_view_mode {
            ViewMode::Rolling => self.command_history.len() > 0,
            ViewMode::Specific(t) => self.latest_key_before(t).is_some(),
        }
    }

    /// Whether there is a later recorded state to step forward to; never
    /// when rolling.
    pub fn can_step_forward(&self) -> (r: bool)
        ensures
            r == match self.current_view_mode {
                ViewMode::Rolling => false,
                ViewMode::Specific(t) => earliest_after(self.keys(), t) is Some,
            },
    {
        match self.current_view_mode {
            ViewMode::Rolling => false,
            ViewMode::Specific(t) => self.earliest_key_after(t).is_some(),
        }
    }

    /// Shows `view_mode`.
    pub fn set_view(&mut self, view_mode: ViewMode)
        ensures
            final(self).current_view_mode == view_mode,
            final(self).command_history == old(self).command_history,
    {
        self.current_view_mode = view_mode;
    }

    /// Steps one timestamp back: from rolling to the latest timestamp, from
    /// a timestamp to the latest one before it. Does nothing where there is
    /// none.
    pub fn step_backward(&mut self)
        ensures
            final(self).command_history == old(self).command_history,
            final(self).current_view_mode == match old(self).current_view_mode {
                ViewMode::Rolling => if old(self).keys().len() == 0 {
                    ViewMode::Rolling
                } else {
                    ViewMode::Specific(old(self).keys().last())
                },
                ViewMode::Specific(t) => match latest_before(old(self).keys(), t) {
                    Some(p) => ViewMode::Specific(p),
                    None => ViewMode::Specific(t),
                },
            },
    {
        match self.current_view_mode {
            ViewMode::Rolling => {
                let n = self.command_history.len();
                if n > 0 {
                    let latest = self.command_history[n - 1].0;
                    self.set_view(ViewMode::Specific(latest));
                }
            },
            ViewMode::Specific(t) => {
                if let Some(p) = self.latest_key_before(t) {
                    self.set_view(ViewMode::Specific(p));
                }
            },
        }
    }

    /// Steps one timestamp forward from a fixed view; does nothing when
    /// rolling or at the latest timestamp.
    pub fn step_forward(&mut self)
        ensures
            final(self).command_history == old(self).command_history,
            final(self).current_view_mode == match old(self).current_view_mode {
                ViewMode::Rolling => ViewMode::Rolling,
                ViewMode::Specific(t) => match earliest_after(old(self).keys(), t) {
                    Some(q) => ViewMode::Specific(q),
                    None => ViewMode::Specific(t),
                },
            },
    {
        if let ViewMode::Specific(t) = self.current_view_mode {
            if let Some(q) = self.earliest_key_after(t) {
                self.set_view(ViewMode::Specific(q));
            }
        }
    }

    /// Goes back to the rolling view.
    pub fn toggle_rolling_mode(&mut self)
        ensures
            final(self).command_history == old(self).command_history,
            final(self).current_view_mode == ViewMode::Rolling,
    {
        match self.current_view_mode {
            ViewMode::Rolling => {},
            ViewMode::Specific(_) => {
                self.set_view(ViewMode::Rolling);
            },
        }
    }

    /// The first and the last recorded timestamp.
    pub fn timestamp_bounds(&self) -> (r: Option<(Timestamp, Timestamp)>)
        ensures
            r == if self.keys().len() == 0 {
                None
            } else {
                Some((self.keys()[0], self.keys().last()))
            },
    {
        let n = self.command_history.len();
        if n == 0 {
            None
        } else {
            Some((self.command_history[0].0, self.command_history[n - 1].0))
        }
    }

    /// The number of recorded commands.
    pub fn history_len(&self) -> (r: usize)
        requires
            commands_upto(self.command_history@, self.command_history@.len() as int) <= usize::MAX,
        ensures
            r == commands_upto(self.command_history@, self.command_history@.len() as int),
    {
        let ghost h = self.command_history@;
        let mut total: usize = 0;
        let mut i: usize = 0;
        while i < self.command_history.len()
            invariant
                i <= self.command_history.len(),
                h == self.command_history@,
                commands_upto(h, h.len() as int) <= usize::MAX,
                total == commands_upto(h, i as int),
            decreases self.command_history.len() - i,
        {
            proof {
                lemma_commands_upto_monotone(h, i as int + 1, h.len() as int);
            }
            total = total + self.command_history[i].1.len();
            i += 1;
        }
        total
    }
}

} // verus!
