//! Data carried by the feed: one tick snapshot, the envelope it arrives in,
//! and the payload forwarded to the render loop.

use vstd::prelude::*;

verus! {

/// One market-data snapshot. Prices and quantities travel as decimal text;
/// `t` is the snapshot time in milliseconds since the epoch.
#[derive(Debug)]
pub struct TkrData {
    /// Price of the highest trade of the last 24 hours.
    pub h: String,
    /// Price of the lowest trade of the last 24 hours.
    pub l: String,
    /// Price of the latest trade.
    pub a: String,
    /// Instrument name.
    pub i: String,
    /// Total quantity traded over the last 24 hours.
    pub v: String,
    /// Total value traded over the last 24 hours.
    pub vv: String,
    /// Open interest.
    pub oi: String,
    /// Price change over the last 24 hours.
    pub c: String,
    /// Current best bid price.
    pub b: String,
    /// Current best ask price.
    pub k: String,
    /// Snapshot time, milliseconds since the epoch.
    pub t: i64,
}

impl TkrData {
    /// The placeholder value that fills a fresh ring buffer: every text field
    /// empty and time zero.
    pub open spec fn is_zero(&self) -> bool {
        &&& self.h@ == Seq::<char>::empty()
        &&& self.l@ == Seq::<char>::empty()
        &&& self.a@ == Seq::<char>::empty()
        &&& self.i@ == Seq::<char>::empty()
        &&& self.v@ == Seq::<char>::empty()
        &&& self.vv@ == Seq::<char>::empty()
        &&& self.oi@ == Seq::<char>::empty()
        &&& self.c@ == Seq::<char>::empty()
        &&& self.b@ == Seq::<char>::empty()
        &&& self.k@ == Seq::<char>::empty()
        &&& self.t == 0
    }
}

impl Clone for TkrData {
    fn clone(&self) -> (r: Self)
        ensures
            r == *self,
    {
        TkrData {
            h: self.h.clone(),
            l: self.l.clone(),
            a: self.a.clone(),
            i: self.i.clone(),
            v: self.v.clone(),
            vv: self.vv.clone(),
            oi: self.oi.clone(),
            c: self.c.clone(),
            b: self.b.clone(),
            k: self.k.clone(),
            t: self.t,
        }
    }
}

impl Default for TkrData {
    fn default() -> (r: Self)
        ensures
            r.is_zero(),
    {
        TkrData {
            h: String::new(),
            l: String::new(),
            a: String::new(),
            i: String::new(),
            v: String::new(),
            vv: String::new(),
            oi: String::new(),
            c: String::new(),
            b: String::new(),
            k: String::new(),
            t: 0,
        }
    }
}

/// The payload of one accepted feed message: the instrument it concerns and
/// the tick snapshots that came with it (the first entry is the one stored).
pub struct TkrResult {
    /// Instrument identifier the message concerns.
    pub tkr: String,
    /// Subscription name the message was delivered under.
    pub subscription: String,
    /// Channel name the message was delivered under.
    pub channel: String,
    /// Tick snapshots carried by the message, newest first.
    pub data: Vec<TkrData>,
}

/// The envelope of one feed message, as decoded at the ingestion edge.
pub struct TkrResponse {
    /// Request identifier echoed by the feed.
    pub id: i64,
    /// Method name of the message.
    pub method: String,
    /// Status code of the message.
    pub code: i64,
    /// The payload.
    pub result: TkrResult,
}

} // verus!
