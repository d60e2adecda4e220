use crate::counters::Counters;
use crate::ledger::{set_after_ignore, spec_should_ignore, IgnoreLedger};
use vstd::prelude::*;

verus! {

/// Default CPU usage threshold above which a sample counts toward a hog
/// streak, in hundredths of a percent (85.00%).
pub const DEFAULT_CPU_THRESHOLD_CENTI: u32 = 8500;

/// Default number of consecutive above-threshold samples a streak must
/// exceed before a hog is reported.
pub const DEFAULT_HOGS_THRESHOLD: u8 = 2;

/// Default number of consecutive notification timeouts that escalate into a
/// permanent ignore.
pub const DEFAULT_TIMEOUTS_THRESHOLD: u8 = 2;

/// Default number of distinct ignored command lines after which a whole
/// executable is treated as exempt.
pub const DEFAULT_PROMOTE_THRESHOLD: usize = 3;

/// The tunable policy parameters of the monitor.
#[derive(Clone, Copy, Debug, PartialEq, Eq, Structural)]
pub struct Config {
    /// CPU usage strictly above this, in hundredths of a percent, counts
    /// toward a hog streak.
    pub cpu_threshold_centi: u32,
    /// A hog is reported once a streak exceeds this many samples.
    pub hogs_threshold: u8,
    /// This many consecutive timeouts escalate into a permanent ignore.
    pub timeouts_threshold: u8,
    /// This many distinct ignored command lines exempt a whole executable.
    pub promote_threshold: usize,
}

impl Default for Config {
    /// The default policy parameters.
    fn default() -> (c: Config)
        ensures
            c.cpu_threshold_centi == DEFAULT_CPU_THRESHOLD_CENTI,
            c.hogs_threshold == DEFAULT_HOGS_THRESHOLD,
            c.timeouts_threshold == DEFAULT_TIMEOUTS_THRESHOLD,
            c.promote_threshold == DEFAULT_PROMOTE_THRESHOLD,
    {
        Config {
            cpu_threshold_centi: DEFAULT_CPU_THRESHOLD_CENTI,
            hogs_threshold: DEFAULT_HOGS_THRESHOLD,
            timeouts_threshold: DEFAULT_TIMEOUTS_THRESHOLD,
            promote_threshold: DEFAULT_PROMOTE_THRESHOLD,
        }
    }
}

/// Whether one observation reports a confirmed hog: the process is not
/// exempt, the sample is above threshold, and the incremented streak exceeds
/// the limit.
pub open spec fn reports_hog(streak: u8, above: bool, ignored: bool, limit: u8) -> bool {
    !ignored && above && streak + 1 > limit
}

/// The hog streak after one observation: forced to zero for an exempt
/// process, reset by any below-threshold sample, reset after a report, and
/// otherwise incremented.
pub open spec fn next_hog_streak(streak: u8, above: bool, ignored: bool, limit: u8) -> u8 {
    if ignored {
        0
    } else if above {
        if streak + 1 > limit {
            0
        } else {
            (streak + 1) as u8
        }
    } else {
        0
    }
}

/// Whether one more timeout reaches the escalation limit.
pub open spec fn timeout_escalates(streak: u8, limit: u8) -> bool {
    streak + 1 >= limit
}

/// The timeout streak after one timeout: reset once it escalates, otherwise
/// incremented.
pub open spec fn next_timeout_streak(streak: u8, limit: u8) -> u8 {
    if streak + 1 >= limit {
        0
    } else {
        (streak + 1) as u8
    }
}

/// Silence law: a sample at or below the threshold is never reported as a
/// hog, whatever the streak was, and it leaves the streak at zero.
pub proof fn lemma_below_threshold_is_silent(streak: u8, ignored: bool, limit: u8)
    ensures
        !reports_hog(streak, false, ignored, limit),
        next_hog_streak(streak, false, ignored, limit) == 0,
{
}

/// Exemption law: an exempt process is never reported as a hog, whatever its
/// streak and usage, and its streak is forced to zero.
pub proof fn lemma_exempt_is_silent(streak: u8, above: bool, limit: u8)
    ensures
        !reports_hog(streak, above, true, limit),
        next_hog_streak(streak, above, true, limit) == 0,
{
}

/// The hog streak after `k` consecutive above-threshold samples of a
/// non-exempt process, starting from zero.
pub open spec fn streak_after(k: nat, limit: u8) -> u8
    decreases k,
{
    if k == 0 {
        0
    } else {
        next_hog_streak(streak_after((k - 1) as nat, limit), true, false, limit)
    }
}

/// The timeout streak after `k` consecutive timeouts, starting from zero.
pub open spec fn timeout_streak_after(k: nat, limit: u8) -> u8
    decreases k,
{
    if k == 0 {
        0
    } else {
        next_timeout_streak(timeout_streak_after((k - 1) as nat, limit), limit)
    }
}

/// Hysteresis law: starting from a zero streak, a non-exempt process above
/// threshold every cycle is reported on no sample up to `limit`, is reported
/// exactly on sample `limit + 1`, and its streak then returns to zero, so the
/// next report again takes `limit + 1` consecutive samples.
pub proof fn lemma_hysteresis_window(limit: u8, k: nat)
    requires
        1 <= k <= limit + 1,
    ensures
        k <= limit ==> !reports_hog(streak_after((k - 1) as nat, limit), true, false, limit)
            && streak_after(k, limit) == k,
        k == limit + 1 ==> reports_hog(streak_after((k - 1) as nat, limit), true, false, limit)
            && streak_after(k, limit) == 0,
    decreases k,
{
    if k > 1 {
        lemma_hysteresis_window(limit, (k - 1) as nat);
    } else {
        assert(streak_after(0nat, limit) == 0);
    }
}

/// Escalation law: starting from a zero timeout streak, the first
/// `limit - 1` timeouts only advance the counter; the `limit`-th is the one
/// that escalates, and it resets the counter to zero.
pub proof fn lemma_timeout_escalation(limit: u8, k: nat)
    requires
        1 <= k <= limit,
    ensures
        k < limit ==> !timeout_escalates(timeout_streak_after((k - 1) as nat, limit), limit)
            && timeout_streak_after(k, limit) == k,
        k == limit ==> timeout_escalates(timeout_streak_after((k - 1) as nat, limit), limit)
            && timeout_streak_after(k, limit) == 0,
    decreases k,
{
    if k > 1 {
        lemma_timeout_escalation(limit, (k - 1) as nat);
    } else {
        assert(timeout_streak_after(0nat, limit) == 0);
    }
}

/// The resident monitor's state: the policy parameters, the durable ignore
/// ledger, and the two ephemeral per-pid streak counters.
pub struct HogDetector {
    config: Config,
    ledger: IgnoreLedger,
    hogs: Counters,
    timeouts: Counters,
}

impl HogDetector {
    /// The policy parameters.
    pub closed spec fn cfg(self) -> Config {
        self.config
    }

    /// The ignore ledger's content.
    pub closed spec fn ignored(self) -> Map<Seq<char>, Set<Seq<char>>> {
        self.ledger@
    }

    /// The abstract entry list of the ignore ledger, as persisted.
    pub closed spec fn ledger_seq(self) -> Seq<(Seq<char>, Seq<Seq<char>>)> {
        self.ledger.entry_seq()
    }

    /// The hog streak of one pid.
    pub closed spec fn hog_streak(self, pid: u32) -> u8 {
        self.hogs.count(pid)
    }

    /// The timeout streak of one pid.
    pub closed spec fn timeout_streak(self, pid: u32) -> u8 {
        self.timeouts.count(pid)
    }

    /// Well-formedness of the whole state.
    pub closed spec fn wf(self) -> bool {
        self.ledger.wf() && self.hogs.wf() && self.timeouts.wf()
    }

    /// A monitor over a previously loaded ignore ledger, with every streak
    /// at zero.
    pub fn new(config: Config, ledger: IgnoreLedger) -> (r: Self)
        requires
            ledger.wf(),
        ensures
            r.wf(),
            r.cfg() == config,
            r.ignored() == ledger@,
            r.ledger_seq() == ledger.entry_seq(),
            forall|p: u32| r.hog_streak(p) == 0,
            forall|p: u32| r.timeout_streak(p) == 0,
    {
        HogDetector { config, ledger, hogs: Counters::new(), timeouts: Counters::new() }
    }

    /// Whether a process with this identity is exempt from detection.
    pub fn process_should_be_ignored(&self, exe: &String, cmd: &String) -> (r: bool)
        requires
            self.wf(),
        ensures
            r == spec_should_ignore(self.ignored(), exe@, cmd@, self.cfg().promote_threshold as int),
    {
        self.ledger.should_ignore(exe, cmd, self.config.promote_threshold)
    }

    /// One detector step for one observed process: exempt processes are
    /// forced to a zero streak and never reported; an above-threshold sample
    /// advances the streak and reports a hog once the streak exceeds the
    /// limit, resetting it; any below-threshold sample resets the streak and
    /// is never reported.
    pub fn process_is_hog(&mut self, pid: u32, exe: &String, cmd: &String, cpu_centi: u32) -> (r:
        bool)
        requires
            old(self).wf(),
        ensures
            final(self).wf(),
            final(self).cfg() == old(self).cfg(),
            final(self).ignored() == old(self).ignored(),
            final(self).ledger_seq() == old(self).ledger_seq(),
            forall|q: u32| q != pid ==> final(self).hog_streak(q) == old(self).hog_streak(q),
            forall|q: u32| final(self).timeout_streak(q) == old(self).timeout_streak(q),
            r == reports_hog(
                old(self).hog_streak(pid),
                cpu_centi > old(self).cfg().cpu_threshold_centi,
                spec_should_ignore(
                    old(self).ignored(),
                    exe@,
                    cmd@,
                    old(self).cfg().promote_threshold as int,
                ),
                old(self).cfg().hogs_threshold,
            ),
            final(self).hog_streak(pid) == next_hog_streak(
                old(self).hog_streak(pid),
                cpu_centi > old(self).cfg().cpu_threshold_centi,
                spec_should_ignore(
                    old(self).ignored(),
                    exe@,
                    cmd@,
                    old(self).cfg().promote_threshold as int,
                ),
                old(self).cfg().hogs_threshold,
            ),
    {
        let ignored = self.ledger.should_ignore(exe, cmd, self.config.promote_threshold);
        if ignored {
            self.hogs.set(pid, 0);
            return false;
        }
        if cpu_centi > self.config.cpu_threshold_centi {
            let s: u8 = self.hogs.get(pid);
            let s1: u32 = s as u32 + 1;
            if s1 > self.config.hogs_threshold as u32 {
                self.hogs.set(pid, 0);
                return true;
            }
            self.hogs.set(pid, s1 as u8);
            return false;
        }
        self.hogs.set(pid, 0);
        false
    }

    /// One timeout-track step for one pid whose notification timed out: the
    /// streak advances, and on reaching the limit the process identity is
    /// recorded in the ignore ledger, the streak resets, and the caller is
    /// told to persist the ledger. This is the only path besides an explicit
    /// dismissal that mutates the ledger.
    pub fn process_timeout(&mut self, pid: u32, exe: &String, cmd: &String) -> (persist: bool)
        requires
            old(self).wf(),
        ensures
            final(self).wf(),
            final(self).cfg() == old(self).cfg(),
            forall|q: u32| final(self).hog_streak(q) == old(self).hog_streak(q),
            forall|q: u32| q != pid ==> final(self).timeout_streak(q) == old(self).timeout_streak(q),
            persist == timeout_escalates(
                old(self).timeout_streak(pid),
                old(self).cfg().timeouts_threshold,
            ),
            final(self).timeout_streak(pid) == next_timeout_streak(
                old(self).timeout_streak(pid),
                old(self).cfg().timeouts_threshold,
            ),
            persist ==> final(self).ignored() == old(self).ignored().insert(
                exe@,
                set_after_ignore(old(self).ignored(), exe@, cmd@),
            ),
            !persist ==> final(self).ignored() == old(self).ignored() && final(self).ledger_seq()
                == old(self).ledger_seq(),
    {
        let s: u8 = self.timeouts.get(pid);
        let s1: u32 = s as u32 + 1;
        if s1 >= self.config.timeouts_threshold as u32 {
            let _ = self.ledger.ignore(exe, cmd);
            self.timeouts.set(pid, 0);
            true
        } else {
            self.timeouts.set(pid, s1 as u8);
            false
        }
    }

    /// Records an explicit ignore decision for a process identity. Returns
    /// whether the ledger changed; the caller persists either way.
    pub fn ignore(&mut self, exe: &String, cmd: &String) -> (changed: bool)
        requires
            old(self).wf(),
        ensures
            final(self).wf(),
            final(self).cfg() == old(self).cfg(),
            forall|q: u32| final(self).hog_streak(q) == old(self).hog_streak(q),
            forall|q: u32| final(self).timeout_streak(q) == old(self).timeout_streak(q),
            final(self).ignored() == old(self).ignored().insert(
                exe@,
                set_after_ignore(old(self).ignored(), exe@, cmd@),
            ),
            changed == !(old(self).ignored().contains_key(exe@) && old(self).ignored()[exe@]
                .contains(cmd@)),
    {
        self.ledger.ignore(exe, cmd)
    }

    /// Serializes the current ignore ledger for the cache file.
    pub fn ledger_bytes(&self) -> (r: Vec<u8>)
        ensures
            r@ == crate::codec::spec_encode(self.ledger_seq()),
            crate::codec::entries_encodable(self.ledger_seq()),
    {
        self.ledger.to_bytes()
    }

    /// Drops the streaks of every pid that is no longer alive, so a reused
    /// pid cannot inherit a stale streak from a disappeared process.
    pub fn prune(&mut self, live: &Vec<u32>)
        requires
            old(self).wf(),
        ensures
            final(self).wf(),
            final(self).cfg() == old(self).cfg(),
            final(self).ignored() == old(self).ignored(),
            final(self).ledger_seq() == old(self).ledger_seq(),
            forall|q: u32|
                final(self).hog_streak(q) == if live@.contains(q) {
                    old(self).hog_streak(q)
                } else {
                    0u8
                },
            forall|q: u32|
                final(self).timeout_streak(q) == if live@.contains(q) {
                    old(self).timeout_streak(q)
                } else {
                    0u8
                },
    {
        self.hogs.prune(live);
        self.timeouts.prune(live);
    }
}

} // verus!
