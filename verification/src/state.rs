//! The state the menu shows and how it reacts to the events of the event
//! loop: new readings, the menu's buttons, and the display timer.
use vstd::prelude::*;
use crate::monitor::{active_list, InterfaceStats, NetworkMonitor};

verus! {

/// How often the menu and the title are redrawn, in milliseconds.
pub const REFRESH_INTERVAL_MS: u64 = 1000;

/// One reading of the machine's traffic, as handed to the user interface.
#[derive(Debug)]
pub struct NetworkState {
    pub recv_speed: u64,
    pub sent_speed: u64,
    pub total_recv: u64,
    pub total_sent: u64,
    pub interfaces: Vec<(String, InterfaceStats)>,
}

/// Two readings carry the same figures.
pub open spec fn same_state(a: NetworkState, b: NetworkState) -> bool {
    &&& a.recv_speed == b.recv_speed
    &&& a.sent_speed == b.sent_speed
    &&& a.total_recv == b.total_recv
    &&& a.total_sent == b.total_sent
    &&& a.interfaces@ == b.interfaces@
}

fn copy_interfaces(list: &Vec<(String, InterfaceStats)>) -> (c: Vec<(String, InterfaceStats)>)
    ensures
        c@ == list@,
{
    let mut c: Vec<(String, InterfaceStats)> = Vec::new();
    let n = list.len();
    for i in 0..n
        invariant
            n == list@.len(),
            c@ == list@.take(i as int),
    {
        c.push((list[i].0.clone(), list[i].1.clone()));
        assert(c@ =~= list@.take(i + 1));
    }
    assert(list@.take(n as int) =~= list@);
    c
}

impl Clone for NetworkState {
    fn clone(&self) -> (c: Self)
        ensures
            same_state(c, *self),
    {
        NetworkState {
            recv_speed: self.recv_speed,
            sent_speed: self.sent_speed,
            total_recv: self.total_recv,
            total_sent: self.total_sent,
            interfaces: copy_interfaces(&self.interfaces),
        }
    }
}

impl Default for NetworkState {
    fn default() -> (s: Self)
        ensures
            s.recv_speed == 0,
            s.sent_speed == 0,
            s.total_recv == 0,
            s.total_sent == 0,
            s.interfaces@.len() == 0,
    {
        NetworkState::new()
    }
}

impl NetworkState {
    /// A reading with no traffic and no interface.
    pub fn new() -> (s: Self)
        ensures
            s.recv_speed == 0,
            s.sent_speed == 0,
            s.total_recv == 0,
            s.total_sent == 0,
            s.interfaces@.len() == 0,
    {
        NetworkState {
            recv_speed: 0,
            sent_speed: 0,
            total_recv: 0,
            total_sent: 0,
            interfaces: Vec::new(),
        }
    }

    /// The reading a monitor hands to the user interface after a refresh:
    /// its total speeds and counters, and its active interfaces busiest
    /// first.
    pub fn from_monitor(m: &NetworkMonitor) -> (s: Self)
        ensures
            s.recv_speed == m.total_recv_speed,
            s.sent_speed == m.total_sent_speed,
            s.total_recv == m.total_recv,
            s.total_sent == m.total_sent,
            s.interfaces@ == active_list(m.interfaces@),
    {
        let active = m.active_interfaces();
        let mut list: Vec<(String, InterfaceStats)> = Vec::new();
        let n = active.len();
        for i in 0..n
            invariant
                n == active@.len(),
                n == active_list(m.interfaces@).len(),
                forall|k: int|
                    0 <= k < n ==> *active@[k].0 == active_list(m.interfaces@)[k].0 && *active@[k].1
                        == active_list(m.interfaces@)[k].1,
                list@ == active_list(m.interfaces@).take(i as int),
        {
            let (name, stats) = active[i];
            list.push((name.clone(), stats.clone()));
            assert(list@ =~= active_list(m.interfaces@).take(i + 1));
        }
        assert(active_list(m.interfaces@).take(n as int) =~= active_list(m.interfaces@));
        NetworkState {
            recv_speed: m.total_recv_speed,
            sent_speed: m.total_sent_speed,
            total_recv: m.total_recv,
            total_sent: m.total_sent,
            interfaces: list,
        }
    }
}

/// What the menu shows: the latest reading and the peak speeds seen.
#[derive(Debug)]
pub struct AppState {
    pub peak_recv: u64,
    pub peak_sent: u64,
    pub network: NetworkState,
}

/// What happens in the event loop.
pub enum UiEvent {
    /// The "Quit NeTray" item was chosen.
    QuitClicked,
    /// The "Reset Peak Speeds" item was chosen.
    ResetClicked,
    /// Some other menu item was chosen.
    OtherMenuItem,
    /// The refresh timer fired; the monitor's latest reading, if one came.
    Refresh(Option<NetworkState>),
    /// The loop is about to wait; time since the user interface was last
    /// redrawn by the timer.
    Idle { since_last_ui_ms: u64 },
}

/// What the event loop does in answer.
#[derive(Debug, PartialEq, Eq, Structural)]
pub enum UiAction {
    Exit,
    ApplyToUi,
    Nothing,
}

/// The peak after seeing `speed`.
pub open spec fn next_peak(peak: u64, speed: u64) -> u64 {
    if speed > peak {
        speed
    } else {
        peak
    }
}

/// The peak after seeing each of `speeds` in turn.
pub open spec fn peak_after(peak: u64, speeds: Seq<u64>) -> u64
    decreases speeds.len(),
{
    if speeds.len() == 0 {
        peak
    } else {
        next_peak(peak_after(peak, speeds.drop_last()), speeds.last())
    }
}

/// After any series of readings the peak is the largest of the starting
/// peak and every speed read: never below a speed that was seen, and always
/// one of them or the start.
pub proof fn lemma_peak_is_running_max(peak: u64, speeds: Seq<u64>)
    ensures
        peak_after(peak, speeds) >= peak,
        forall|i: int| 0 <= i < speeds.len() ==> peak_after(peak, speeds) >= #[trigger] speeds[i],
        peak_after(peak, speeds) == peak || exists|i: int|
            0 <= i < speeds.len() && peak_after(peak, speeds) == #[trigger] speeds[i],
    decreases speeds.len(),
{
    if speeds.len() > 0 {
        let rest = speeds.drop_last();
        lemma_peak_is_running_max(peak, rest);
        assert forall|i: int| 0 <= i < speeds.len() implies peak_after(peak, speeds)
            >= #[trigger] speeds[i] by {
            if i < speeds.len() - 1 {
                assert(speeds[i] == rest[i]);
            }
        }
        if peak_after(peak, speeds) != peak {
            if peak_after(peak, speeds) == speeds.last() {
                assert(peak_after(peak, speeds) == speeds[speeds.len() - 1]);
            } else {
                let i = choose|i: int| 0 <= i < rest.len() && peak_after(peak, rest) == #[trigger] rest[i];
                assert(speeds[i] == rest[i]);
            }
        }
    }
}

impl Default for AppState {
    fn default() -> (s: Self)
        ensures
            s.peak_recv == 0,
            s.peak_sent == 0,
            s.network.recv_speed == 0,
            s.network.sent_speed == 0,
            s.network.total_recv == 0,
            s.network.total_sent == 0,
            s.network.interfaces@.len() == 0,
    {
        AppState::new()
    }
}

impl AppState {
    /// No reading yet and no peak.
    pub fn new() -> (s: Self)
        ensures
            s.peak_recv == 0,
            s.peak_sent == 0,
            s.network.recv_speed == 0,
            s.network.sent_speed == 0,
            s.network.total_recv == 0,
            s.network.total_sent == 0,
            s.network.interfaces@.len() == 0,
    {
        AppState { peak_recv: 0, peak_sent: 0, network: NetworkState::new() }
    }

    /// Takes in a new reading: it becomes the one shown, and raises the
    /// peaks it exceeds.
    pub fn update(&mut self, snapshot: &NetworkState)
        ensures
            final(self).peak_recv == next_peak(old(self).peak_recv, snapshot.recv_speed),
            final(self).peak_sent == next_peak(old(self).peak_sent, snapshot.sent_speed),
            same_state(final(self).network, *snapshot),
    {
        if snapshot.recv_speed > self.peak_recv {
            self.peak_recv = snapshot.recv_speed;
        }
        if snapshot.sent_speed > self.peak_sent {
            self.peak_sent = snapshot.sent_speed;
        }
        self.network = snapshot.clone();
    }

    /// What "Reset Peak Speeds" does: both peaks restart from one byte a
    /// second.
    pub fn reset_peaks(&mut self)
        ensures
            final(self).peak_recv == 1,
            final(self).peak_sent == 1,
            same_state(final(self).network, old(self).network),
    {
        self.peak_recv = 1;
        self.peak_sent = 1;
        proof {
            assert(same_state(self.network, old(self).network));
        }
    }

    /// Answers one event of the event loop: Quit exits, Reset restarts the
    /// peaks and redraws, a new reading is taken in, and the display is
    /// redrawn once at least `REFRESH_INTERVAL_MS` passed since the last
    /// timed redraw.
    pub fn handle(&mut self, event: UiEvent) -> (action: UiAction)
        ensures
            match event {
                UiEvent::QuitClicked => action == UiAction::Exit && *final(self) == *old(self),
                UiEvent::ResetClicked => {
                    &&& action == UiAction::ApplyToUi
                    &&& final(self).peak_recv == 1
                    &&& final(self).peak_sent == 1
                    &&& same_state(final(self).network, old(self).network)
                },
                UiEvent::OtherMenuItem => action == UiAction::Nothing && *final(self) == *old(self),
                UiEvent::Refresh(None) => action == UiAction::Nothing && *final(self) == *old(self),
                UiEvent::Refresh(Some(snapshot)) => {
                    &&& action == UiAction::Nothing
                    &&& final(self).peak_recv == next_peak(old(self).peak_recv, snapshot.recv_speed)
                    &&& final(self).peak_sent == next_peak(old(self).peak_sent, snapshot.sent_speed)
                    &&& same_state(final(self).network, snapshot)
                },
                UiEvent::Idle { since_last_ui_ms } => {
                    &&& *final(self) == *old(self)
                    &&& (action == UiAction::ApplyToUi) == (since_last_ui_ms >= REFRESH_INTERVAL_MS)
                    &&& (action == UiAction::Nothing) == (since_last_ui_ms < REFRESH_INTERVAL_MS)
                },
            },
    {
        match event {
            UiEvent::QuitClicked => UiAction::Exit,
            UiEvent::ResetClicked => {
                self.reset_peaks();
                UiAction::ApplyToUi
            },
            UiEvent::OtherMenuItem => UiAction::Nothing,
            UiEvent::Refresh(None) => UiAction::Nothing,
            UiEvent::Refresh(Some(snapshot)) => {
                self.update(&snapshot);
                UiAction::Nothing
            },
            UiEvent::Idle { since_last_ui_ms } => {
                if since_last_ui_ms >= REFRESH_INTERVAL_MS {
                    UiAction::ApplyToUi
                } else {
                    UiAction::Nothing
                }
            },
        }
    }
}

} // verus!
