//! Risk control: too many errors in a short time put the bot in panic mode,
//! in which it cancels its orders.
use vstd::prelude::*;
use crate::api::rest::{CancelOrderRequest, Order};
use crate::config::Config;
use crate::order_manager::{deref_all, orders_matching, OrderManager};

verus! {

/// Errors further apart than this, in nanoseconds, start the count over.
pub const ERROR_WINDOW_NS: u64 = 300_000_000_000;

/// Number of errors that puts the bot in panic mode.
pub const PANIC_ERROR_COUNT: usize = 10;

/// The error count after an error at `now`, the previous one having been at
/// `last`: one more, or one when more than five minutes have passed.
pub open spec fn count_after_error(count: nat, last: u64, now: u64) -> nat {
    if now > last && now - last > ERROR_WINDOW_NS {
        1
    } else {
        count + 1
    }
}

/// The error count after errors at `times`, starting from `count` with the
/// previous error at `last`.
pub open spec fn count_after_errors(count: nat, last: u64, times: Seq<u64>) -> nat
    decreases times.len(),
{
    if times.len() == 0 {
        count
    } else {
        let before = times.drop_last();
        let prev = if before.len() == 0 {
            last
        } else {
            before.last()
        };
        count_after_error(count_after_errors(count, last, before), prev, times.last())
    }
}

/// A cancellation of an order.
pub open spec fn cancel_of(o: Order) -> Option<CancelOrderRequest> {
    Some(CancelOrderRequest { symbol: o.symbol, order_id: o.id })
}

pub struct RiskManager {
    config: Config,
    error_count: usize,
    last_error_time: u64,
    panic_mode: bool,
}

impl RiskManager {
    pub closed spec fn config_view(&self) -> Config {
        self.config
    }

    /// Errors counted in the current window.
    pub closed spec fn errors(&self) -> usize {
        self.error_count
    }

    /// Time of the last error, in nanoseconds of the caller's clock.
    pub closed spec fn last_error(&self) -> u64 {
        self.last_error_time
    }

    pub closed spec fn panicking(&self) -> bool {
        self.panic_mode
    }

    /// A risk manager with no errors, started at `now`.
    pub fn new(config: &Config, now: u64) -> (r: Self)
        ensures
            r.config_view() == *config,
            r.errors() == 0,
            r.last_error() == now,
            !r.panicking(),
    {
        RiskManager { config: config.clone(), error_count: 0, last_error_time: now, panic_mode: false }
    }

    /// Records an error at `now`; gives back whether panic mode is on now,
    /// that is, whether this is the tenth error or later without a gap of
    /// more than five minutes. Panic mode, once on, stays on.
    pub fn record_error(&mut self, now: u64) -> (r: bool)
        requires
            old(self).errors() < usize::MAX,
        ensures
            final(self).errors() == count_after_error(old(self).errors() as nat, old(self).last_error(), now),
            final(self).last_error() == now,
            r == (final(self).errors() >= PANIC_ERROR_COUNT),
            final(self).panicking() == (old(self).panicking() || r),
            final(self).config_view() == old(self).config_view(),
    {
        self.error_count = self.error_count + 1;
        if now > self.last_error_time && now - self.last_error_time > ERROR_WINDOW_NS {
            self.error_count = 1;
        }
        self.last_error_time = now;
        if self.error_count >= PANIC_ERROR_COUNT {
            self.panic_mode = true;
            return true;
        }
        false
    }

    /// Errors counted in the current window.
    pub fn error_count(&self) -> (r: usize)
        ensures
            r == self.errors(),
    {
        self.error_count
    }

    pub fn is_panic_mode(&self) -> (r: bool)
        ensures
            r == self.panicking(),
    {
        self.panic_mode
    }

    /// Leaves panic mode and clears the error count.
    pub fn reset_panic_mode(&mut self)
        ensures
            !final(self).panicking(),
            final(self).errors() == 0,
            final(self).last_error() == old(self).last_error(),
            final(self).config_view() == old(self).config_view(),
    {
        self.panic_mode = false;
        self.error_count = 0;
    }

    /// The cancellations of all open orders of the configured symbol, in the
    /// order they were recorded.
    pub fn orders_to_cancel(&self, om: &OrderManager) -> (r: Vec<CancelOrderRequest>)
        requires
            om.wf(),
        ensures
            r@ == orders_matching(om.active(), self.config_view().symbol@, None).filter_map(
                |o: Order| cancel_of(o),
            ),
    {
        let orders = om.get_active_orders(self.config.symbol.as_str());
        let ghost s = deref_all(orders@);
        let ghost f = |o: Order| cancel_of(o);
        let mut out: Vec<CancelOrderRequest> = Vec::new();
        let mut i: usize = 0;
        while i < orders.len()
            invariant
                s == deref_all(orders@),
                f == (|o: Order| cancel_of(o)),
                i <= orders@.len(),
                out@ == s.take(i as int).filter_map(f),
            decreases orders@.len() - i,
        {
            let o = orders[i];
            proof {
                assert(s.take(i as int + 1).drop_last() =~= s.take(i as int));
                assert(s[i as int] == *o);
            }
            out.push(CancelOrderRequest { symbol: o.symbol.clone(), order_id: o.id.clone() });
            i = i + 1;
        }
        proof {
            assert(s.take(s.len() as int) =~= s);
        }
        out
    }
}

/// Law: errors that come at most five minutes apart each add one to the
/// count; so ten of them after a reset put the bot in panic mode.
pub proof fn close_errors_accumulate(count: nat, last: u64, times: Seq<u64>)
    requires
        times.len() > 0 ==> !(times[0] > last && times[0] - last > ERROR_WINDOW_NS),
        forall|i: int|
            0 < i < times.len() ==> !(#[trigger] times[i] > times[i - 1] && times[i] - times[i - 1] > ERROR_WINDOW_NS),
    ensures
        count_after_errors(count, last, times) == count + times.len(),
    decreases times.len(),
{
    if times.len() > 0 {
        let before = times.drop_last();
        assert forall|i: int| 0 < i < before.len() implies !(#[trigger] before[i] > before[i - 1] && before[i]
            - before[i - 1] > ERROR_WINDOW_NS) by {
            assert(before[i] == times[i] && before[i - 1] == times[i - 1]);
        }
        if before.len() > 0 {
            assert(before[0] == times[0]);
        }
        close_errors_accumulate(count, last, before);
        if times.len() > 1 {
            assert(times[times.len() - 1] > times[times.len() - 2] ==> !(times[times.len() - 1] - times[times.len() - 2]
                > ERROR_WINDOW_NS));
        }
    }
}

/// Tally of a round of cancellations.
pub struct CancelReport {
    pub succeeded: usize,
    pub failed: usize,
}

impl CancelReport {
    pub fn new() -> (r: Self)
        ensures
            r.succeeded == 0,
            r.failed == 0,
    {
        CancelReport { succeeded: 0, failed: 0 }
    }

    /// Counts one cancellation, successful when `ok`.
    pub fn record(&mut self, ok: bool)
        requires
            old(self).succeeded < usize::MAX,
            old(self).failed < usize::MAX,
        ensures
            final(self).succeeded == old(self).succeeded + if ok { 1int } else { 0int },
            final(self).failed == old(self).failed + if ok { 0int } else { 1int },
    {
        if ok {
            self.succeeded = self.succeeded + 1;
        } else {
            self.failed = self.failed + 1;
        }
    }

    /// Whether some cancellation failed.
    pub fn has_failures(&self) -> (r: bool)
        ensures
            r == (self.failed > 0),
    {
        self.failed > 0
    }
}

} // verus!
