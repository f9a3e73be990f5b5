//! The render loop's state: the watchlist with its per-instrument buffers,
//! the selected tab, and the running/quitting state machine.
//!
//! The loop itself (draining the channel, repainting, polling for keys,
//! yielding) lives with the terminal code; every decision it takes is a
//! method here.

use vstd::prelude::*;
use crate::channel::FeedChannel;
use crate::models::{TkrData, TkrResult};
use crate::ring::{insert_spec, DataList};
use crate::tabs::{SelectedTab, TkrTabs};

verus! {

/// The two states of the render loop.
#[derive(Clone, Copy, PartialEq, Eq, Structural, Debug)]
pub enum AppState {
    /// The loop keeps cycling.
    Running,
    /// The loop exits after the current cycle.
    Quitting,
}

/// One watchlist entry: an instrument identifier and the ring buffer that
/// owns its recent ticks. The watchlist is fixed at startup.
pub struct CryptoData {
    /// Instrument identifier messages are matched against.
    pub tkr: String,
    /// The instrument's ring buffer of recent ticks.
    pub data_list: DataList,
}

/// A key press, reduced to what the loop reacts to: the quit key, a numeric
/// key selecting a watchlist tab (counted from `1`), or anything else.
#[derive(Clone, Copy, PartialEq, Eq, Structural, Debug)]
pub enum KeyPress {
    /// The quit key.
    Quit,
    /// A numeric key with its value.
    Digit(usize),
    /// Any other key; ignored.
    Other,
}

/// The dashboard state the render loop owns: no other task touches it, so
/// all mutation happens through these methods.
pub struct Dashboard {
    /// Running or quitting.
    pub state: AppState,
    /// The tab strip.
    pub tkr_tabs: TkrTabs,
    /// One entry per watchlist instrument, in watchlist order.
    pub tkr_data: Vec<CryptoData>,
}

/// What routing one message does to a dashboard: every watchlist entry whose
/// identifier equals the message's receives the message's first tick in its
/// ring buffer, every other entry — and the state and tab selection — is
/// untouched.
pub open spec fn routes(pre: Dashboard, post: Dashboard, msg: TkrResult) -> bool {
    &&& post.state == pre.state
    &&& post.tkr_tabs == pre.tkr_tabs
    &&& post.tkr_data@.len() == pre.tkr_data@.len()
    &&& forall|j: int|
        0 <= j < pre.tkr_data@.len() ==> {
            let before = pre.tkr_data@[j];
            let after = #[trigger] post.tkr_data@[j];
            if before.tkr@ == msg.tkr@ {
                after.tkr == before.tkr && after.data_list@ == insert_spec(
                    before.data_list@,
                    msg.data@[0],
                )
            } else {
                after == before
            }
        }
}

impl Dashboard {
    /// Every entry's ring buffer is well-formed.
    pub open spec fn wf(&self) -> bool {
        forall|j: int|
            0 <= j < self.tkr_data@.len() ==> (#[trigger] self.tkr_data@[j]).data_list@.wf()
    }

    /// A dashboard at startup: running, first tab selected, one fresh buffer
    /// of `capacity` slots per watchlist instrument, in watchlist order.
    pub fn new(watchlist: &Vec<String>, capacity: usize) -> (r: Self)
        requires
            1 <= capacity,
        ensures
            r.wf(),
            r.state == AppState::Running,
            r.tkr_tabs.selected_tab == SelectedTab::Tab1,
            r.tkr_data@.len() == watchlist@.len(),
            forall|j: int|
                0 <= j < watchlist@.len() ==> (#[trigger] r.tkr_data@[j]).tkr@ == watchlist@[j]@
                    && r.tkr_data@[j].data_list@.is_fresh(capacity as int),
    {
        let mut tkr_data: Vec<CryptoData> = Vec::new();
        let mut j: usize = 0;
        while j < watchlist.len()
            invariant
                j <= watchlist@.len(),
                1 <= capacity,
                tkr_data@.len() == j,
                forall|t: int|
                    0 <= t < j ==> (#[trigger] tkr_data@[t]).tkr@ == watchlist@[t]@
                        && tkr_data@[t].data_list@.is_fresh(capacity as int),
            decreases watchlist@.len() - j,
        {
            let entry = CryptoData { tkr: watchlist[j].clone(), data_list: DataList::new(capacity) };
            tkr_data.push(entry);
            j = j + 1;
        }
        Dashboard { state: AppState::Running, tkr_tabs: TkrTabs::default(), tkr_data }
    }

    /// Decides well-formedness at run time, for callers outside the verified
    /// world that must test it before relying on it.
    pub fn check_wf(&self) -> (r: bool)
        ensures
            r == self.wf(),
    {
        let mut j: usize = 0;
        let mut ok = true;
        while j < self.tkr_data.len()
            invariant
                j <= self.tkr_data@.len(),
                ok == forall|t: int|
                    0 <= t < j ==> (#[trigger] self.tkr_data@[t]).data_list@.wf(),
            decreases self.tkr_data@.len() - j,
        {
            ok = ok && self.tkr_data[j].data_list.check_wf();
            j = j + 1;
        }
        ok
    }

    /// Whether the loop should run another cycle.
    pub fn is_running(&self) -> (r: bool)
        ensures
            r == (self.state == AppState::Running),
    {
        self.state == AppState::Running
    }

    /// Routes one drained feed payload: every watchlist entry whose
    /// identifier equals the message's receives the message's first tick in
    /// its ring buffer; a message for an unknown instrument changes nothing
    /// and is no error. State and tab selection are untouched.
    pub fn handle_message(&mut self, msg: &TkrResult)
        requires
            old(self).wf(),
            msg.data@.len() >= 1,
        ensures
            final(self).wf(),
            routes(*old(self), *final(self), *msg),
    {
        let ghost pre = *self;
        let mut j: usize = 0;
        while j < self.tkr_data.len()
            invariant
                pre.wf(),
                msg.data@.len() >= 1,
                j <= self.tkr_data@.len(),
                self.state == pre.state,
                self.tkr_tabs == pre.tkr_tabs,
                self.tkr_data@.len() == pre.tkr_data@.len(),
                forall|t: int| j <= t < pre.tkr_data@.len() ==> #[trigger] self.tkr_data@[t]
                    == pre.tkr_data@[t],
                forall|t: int|
                    0 <= t < j ==> {
                        let before = pre.tkr_data@[t];
                        let after = #[trigger] self.tkr_data@[t];
                        if before.tkr@ == msg.tkr@ {
                            after.tkr == before.tkr && after.data_list@ == insert_spec(
                                before.data_list@,
                                msg.data@[0],
                            )
                        } else {
                            after == before
                        }
                    },
            decreases self.tkr_data@.len() - j,
        {
            if self.tkr_data[j].tkr == msg.tkr {
                let entry = &mut self.tkr_data[j];
                entry.data_list.insert(msg);
            }
            j = j + 1;
        }
    }

    /// One drain step of the render loop's cycle: takes at most one pending
    /// payload off the channel and routes it; an empty channel changes
    /// nothing. The channel may only carry validated payloads, each with at
    /// least one tick.
    pub fn drain_one(&mut self, channel: &mut FeedChannel)
        requires
            old(self).wf(),
            old(channel).wf(),
            forall|i: int|
                0 <= i < old(channel).items@.len()
                    ==> (#[trigger] old(channel).items@[i]).data@.len() >= 1,
        ensures
            final(self).wf(),
            final(channel).wf(),
            final(channel).bound == old(channel).bound,
            old(channel).items@.len() == 0 ==> *final(self) == *old(self)
                && final(channel).items@ == old(channel).items@,
            old(channel).items@.len() > 0
                ==> final(channel).items@ == old(channel).items@.drop_first()
                && routes(*old(self), *final(self), old(channel).items@[0]),
    {
        match channel.try_recv() {
            Option::Some(msg) => {
                self.handle_message(&msg);
            },
            Option::None => {},
        }
    }

    /// Reacts to one key press: the quit key moves the loop to `Quitting`,
    /// a numeric key selects that watchlist tab (a number with no tab is a
    /// no-op), anything else changes nothing. The buffers are never touched.
    pub fn handle_key(&mut self, key: KeyPress)
        ensures
            final(self).tkr_data == old(self).tkr_data,
            match key {
                KeyPress::Quit => final(self).state == AppState::Quitting && final(self).tkr_tabs
                    == old(self).tkr_tabs,
                KeyPress::Digit(n) => final(self).state == old(self).state
                    && final(self).tkr_tabs.selected_tab == if n == 1 {
                    SelectedTab::Tab1
                } else if n == 2 {
                    SelectedTab::Tab2
                } else {
                    old(self).tkr_tabs.selected_tab
                },
                KeyPress::Other => *final(self) == *old(self),
            },
    {
        match key {
            KeyPress::Quit => {
                self.state = AppState::Quitting;
            },
            KeyPress::Digit(n) => {
                self.tkr_tabs.select(n);
            },
            KeyPress::Other => {},
        }
    }
}

} // verus!
