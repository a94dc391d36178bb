//! Counters for run statistics.

use vstd::prelude::*;

verus! {

/// How often something succeeded and how often it failed.
#[derive(Clone, Copy)]
pub struct SuccessRate {
    succ: usize,
    fail: usize,
}

impl SuccessRate {
    /// The number of successes counted.
    pub closed spec fn successes(&self) -> nat {
        self.succ as nat
    }

    /// The number of failures counted.
    pub closed spec fn failures(&self) -> nat {
        self.fail as nat
    }

    /// The number of successes counted.
    pub fn success_count(&self) -> (n: usize)
        ensures
            n == self.successes(),
    {
        self.succ
    }

    /// The number of failures counted.
    pub fn fail_count(&self) -> (n: usize)
        ensures
            n == self.failures(),
    {
        self.fail
    }

    /// Counts one success.
    pub fn success(&mut self)
        requires
            old(self).successes() < usize::MAX,
        ensures
            final(self).successes() == old(self).successes() + 1,
            final(self).failures() == old(self).failures(),
    {
        self.succ += 1;
    }

    /// Counts one failure.
    pub fn fail(&mut self)
        requires
            old(self).failures() < usize::MAX,
        ensures
            final(self).failures() == old(self).failures() + 1,
            final(self).successes() == old(self).successes(),
    {
        self.fail += 1;
    }

    /// Counts one outcome: a success if `success` holds, else a failure.
    pub fn statistic(&mut self, success: bool)
        requires
            success ==> old(self).successes() < usize::MAX,
            !success ==> old(self).failures() < usize::MAX,
        ensures
            final(self).successes() == old(self).successes() + if success {
                1nat
            } else {
                0nat
            },
            final(self).failures() == old(self).failures() + if success {
                0nat
            } else {
                1nat
            },
    {
        if success {
            self.success()
        } else {
            self.fail()
        }
    }

    /// The counts of both together.
    pub fn add(self, rhs: SuccessRate) -> (sum: SuccessRate)
        requires
            self.successes() + rhs.successes() <= usize::MAX,
            self.failures() + rhs.failures() <= usize::MAX,
        ensures
            sum.successes() == self.successes() + rhs.successes(),
            sum.failures() == self.failures() + rhs.failures(),
    {
        SuccessRate { succ: self.succ + rhs.succ, fail: self.fail + rhs.fail }
    }

    /// Adds the counts of `rhs` to these.
    pub fn add_assign(&mut self, rhs: SuccessRate)
        requires
            old(self).successes() + rhs.successes() <= usize::MAX,
            old(self).failures() + rhs.failures() <= usize::MAX,
        ensures
            final(self).successes() == old(self).successes() + rhs.successes(),
            final(self).failures() == old(self).failures() + rhs.failures(),
    {
        self.succ += rhs.succ;
        self.fail += rhs.fail;
    }

    /// The share of successes among all outcomes counted, in hundredths of
    /// a percent, rounded down; `None` before anything was counted.
    pub fn rate_basis_points(&self) -> (rate: Option<u128>)
        ensures
            self.successes() + self.failures() == 0 ==> rate is None,
            self.successes() + self.failures() > 0 ==> rate == Some(
                ((self.successes() * 10000) / (self.successes() + self.failures())) as u128,
            ),
    {
        let s: u128 = self.succ as u128;
        let all: u128 = self.succ as u128 + self.fail as u128;
        if all == 0 {
            None
        } else {
            assert(s * 10000 <= u128::MAX) by (nonlinear_arith)
                requires
                    s <= 0xffff_ffff_ffff_ffff,
            ;
            Some((s * 10000) / all)
        }
    }
}

impl Default for SuccessRate {
    /// Nothing counted yet.
    fn default() -> (r: SuccessRate)
        ensures
            r.successes() == 0,
            r.failures() == 0,
    {
        SuccessRate { succ: 0, fail: 0 }
    }
}

/// The average of the durations added so far, held in whole nanoseconds.
#[derive(Clone, Copy)]
pub struct AverageDuration {
    sum: u128,
    num: usize,
}

impl AverageDuration {
    /// The sum of the durations added, in nanoseconds.
    pub closed spec fn total(&self) -> nat {
        self.sum as nat
    }

    /// The number of durations added.
    pub closed spec fn count(&self) -> nat {
        self.num as nat
    }

    /// No duration added was longer than `u64::MAX` nanoseconds, so the
    /// sum fits.
    pub closed spec fn well_formed(&self) -> bool {
        self.sum <= self.num * u64::MAX
    }

    /// Adds a duration of `nanos` nanoseconds.
    pub fn add_assign(&mut self, nanos: u64)
        requires
            old(self).well_formed(),
            old(self).count() < usize::MAX,
        ensures
            final(self).well_formed(),
            final(self).total() == old(self).total() + nanos,
            final(self).count() == old(self).count() + 1,
    {
        assert((self.num + 1) * u64::MAX <= usize::MAX * u64::MAX <= u128::MAX) by (nonlinear_arith)
            requires
                self.num + 1 <= usize::MAX,
                usize::MAX <= u64::MAX,
        ;
        assert((self.num + 1) * u64::MAX == self.num * u64::MAX + u64::MAX) by (nonlinear_arith);
        self.sum = self.sum + nanos as u128;
        self.num += 1;
    }

    /// The average duration in nanoseconds, rounded down. There is none
    /// before the first duration was added.
    pub fn average(&self) -> (nanos: Option<u128>)
        ensures
            nanos == if self.count() == 0 {
                None
            } else {
                Some((self.total() / self.count()) as u128)
            },
    {
        if self.num == 0 {
            None
        } else {
            Some(self.sum / self.num as u128)
        }
    }
}

impl Default for AverageDuration {
    /// Nothing added yet.
    fn default() -> (a: AverageDuration)
        ensures
            a.well_formed(),
            a.total() == 0,
            a.count() == 0,
    {
        AverageDuration { sum: 0, num: 0 }
    }
}

/// The name of a test case.
pub struct Case(String);

impl View for Case {
    type V = Seq<char>;

    closed spec fn view(&self) -> Seq<char> {
        self.0@
    }
}

impl Case {
    /// A case named `s`.
    pub fn new(s: &str) -> (case: Case)
        ensures
            case@ == s@,
    {
        Case(s.to_owned())
    }

    /// The name of the case.
    pub fn name(&self) -> (name: &str)
        ensures
            name@ == self@,
    {
        self.0.as_str()
    }
}

impl Default for Case {
    /// A case without a name.
    fn default() -> (case: Case)
        ensures
            case@ == Seq::<char>::empty(),
    {
        Case(String::new())
    }
}

} // verus!
