use vstd::prelude::*;

verus! {

/// A finite map from process id to a small consecutive-cycle counter.
///
/// A pid without an entry is at zero, so the map models a total function
/// from pids to counter values that is zero almost everywhere. Counters are
/// ephemeral: they are never persisted, and a pid that disappears between
/// poll cycles can be cleared with `prune`.
pub struct Counters {
    entries: Vec<(u32, u8)>,
}

/// The counter value recorded for `pid` in `s`, zero where no entry exists.
spec fn seq_count(s: Seq<(u32, u8)>, pid: u32) -> u8
    decreases s.len(),
{
    if s.len() == 0 {
        0
    } else if s.last().0 == pid {
        s.last().1
    } else {
        seq_count(s.drop_last(), pid)
    }
}

/// Each pid appears in at most one entry.
spec fn distinct_keys(s: Seq<(u32, u8)>) -> bool {
    forall|i: int, j: int| 0 <= i < j < s.len() ==> s[i].0 != s[j].0
}

proof fn lemma_seq_count_found(s: Seq<(u32, u8)>, pid: u32, i: int)
    requires
        distinct_keys(s),
        0 <= i < s.len(),
        s[i].0 == pid,
    ensures
        seq_count(s, pid) == s[i].1,
    decreases s.len(),
{
    if i < s.len() - 1 {
        assert(s.drop_last()[i] == s[i]);
        lemma_seq_count_found(s.drop_last(), pid, i);
    }
}

proof fn lemma_seq_count_absent(s: Seq<(u32, u8)>, pid: u32)
    requires
        forall|i: int| 0 <= i < s.len() ==> s[i].0 != pid,
    ensures
        seq_count(s, pid) == 0,
    decreases s.len(),
{
    if s.len() > 0 {
        lemma_seq_count_absent(s.drop_last(), pid);
    }
}

impl Counters {
    /// Well-formedness: one entry per pid, so `count` is unambiguous.
    pub closed spec fn wf(self) -> bool {
        distinct_keys(self.entries@)
    }

    /// The counter value for `pid`; zero where no entry exists.
    pub closed spec fn count(self, pid: u32) -> u8 {
        seq_count(self.entries@, pid)
    }

    /// An empty counter map: every pid is at zero.
    pub fn new() -> (r: Self)
        ensures
            r.wf(),
            forall|p: u32| r.count(p) == 0,
    {
        let r = Counters { entries: Vec::new() };
        proof {
            assert forall|p: u32| r.count(p) == 0 by {
                lemma_seq_count_absent(r.entries@, p);
            }
        }
        r
    }

    /// Reads the counter for one pid.
    pub fn get(&self, pid: u32) -> (r: u8)
        requires
            self.wf(),
        ensures
            r == self.count(pid),
    {
        let n: usize = self.entries.len();
        let mut i: usize = 0;
        while i < n
            invariant
                self.wf(),
                n == self.entries@.len(),
                i <= n,
                forall|j: int| 0 <= j < i ==> self.entries@[j].0 != pid,
            decreases n - i,
        {
            if self.entries[i].0 == pid {
                proof {
                    lemma_seq_count_found(self.entries@, pid, i as int);
                }
                return self.entries[i].1;
            }
            i += 1;
        }
        proof {
            lemma_seq_count_absent(self.entries@, pid);
        }
        0
    }

    /// Sets the counter for one pid, leaving every other pid's counter as it was.
    pub fn set(&mut self, pid: u32, value: u8)
        requires
            old(self).wf(),
        ensures
            final(self).wf(),
            final(self).count(pid) == value,
            forall|q: u32| q != pid ==> final(self).count(q) == old(self).count(q),
    {
        let ghost s0: Seq<(u32, u8)> = self.entries@;
        let n: usize = self.entries.len();
        let mut i: usize = 0;
        while i < n
            invariant
                self.entries@ == s0,
                s0 == old(self).entries@,
                distinct_keys(s0),
                n == s0.len(),
                i <= n,
                forall|j: int| 0 <= j < i ==> s0[j].0 != pid,
            decreases n - i,
        {
            if self.entries[i].0 == pid {
                self.entries[i] = (pid, value);
                proof {
                    let s1 = self.entries@;
                    assert(s1 == s0.update(i as int, (pid, value)));
                    assert forall|j: int, k: int| 0 <= j < k < s1.len() implies s1[j].0
                        != s1[k].0 by {
                        assert(s1[j].0 == s0[j].0 && s1[k].0 == s0[k].0);
                    }
                    lemma_seq_count_found(s1, pid, i as int);
                    assert forall|q: u32| q != pid implies seq_count(s1, q) == seq_count(
                        s0,
                        q,
                    ) by {
                        if exists|j: int| 0 <= j < s0.len() && s0[j].0 == q {
                            let j = choose|j: int| 0 <= j < s0.len() && s0[j].0 == q;
                            lemma_seq_count_found(s0, q, j);
                            lemma_seq_count_found(s1, q, j);
                        } else {
                            lemma_seq_count_absent(s0, q);
                            lemma_seq_count_absent(s1, q);
                        }
                    }
                }
                return ;
            }
            i += 1;
        }
        self.entries.push((pid, value));
        proof {
            let s1 = self.entries@;
            assert(s1 == s0.push((pid, value)));
            assert forall|j: int, k: int| 0 <= j < k < s1.len() implies s1[j].0 != s1[k].0 by {
                if k < s0.len() {
                    assert(s1[j].0 == s0[j].0 && s1[k].0 == s0[k].0);
                } else {
                    assert(s1[j].0 == s0[j].0 && s1[k].0 == pid);
                }
            }
            lemma_seq_count_found(s1, pid, s0.len() as int);
            assert forall|q: u32| q != pid implies seq_count(s1, q) == seq_count(s0, q) by {
                if exists|j: int| 0 <= j < s0.len() && s0[j].0 == q {
                    let j = choose|j: int| 0 <= j < s0.len() && s0[j].0 == q;
                    assert(s1[j] == s0[j]);
                    lemma_seq_count_found(s0, q, j);
                    lemma_seq_count_found(s1, q, j);
                } else {
                    lemma_seq_count_absent(s0, q);
                    assert(forall|j: int| 0 <= j < s1.len() ==> s1[j].0 != q);
                    lemma_seq_count_absent(s1, q);
                }
            }
        }
    }

    /// Drops the counters of every pid that is not in `live`, leaving the
    /// counters of live pids untouched. Run between poll cycles so that a
    /// stale counter cannot outlive its process.
    pub fn prune(&mut self, live: &Vec<u32>)
        requires
            old(self).wf(),
        ensures
            final(self).wf(),
            forall|q: u32|
                final(self).count(q) == if live@.contains(q) {
                    old(self).count(q)
                } else {
                    0u8
                },
    {
        let ghost s0: Seq<(u32, u8)> = self.entries@;
        let mut kept: Vec<(u32, u8)> = Vec::new();
        let n: usize = self.entries.len();
        let mut i: usize = 0;
        while i < n
            invariant
                self.entries@ == s0,
                distinct_keys(s0),
                distinct_keys(kept@),
                n == s0.len(),
                i <= n,
                forall|k: int| 0 <= k < kept@.len() ==> live@.contains(kept@[k].0),
                forall|k: int|
                    0 <= k < kept@.len() ==> exists|j: int|
                        0 <= j < i && s0[j] == #[trigger] kept@[k],
                forall|j: int|
                    0 <= j < i && live@.contains(s0[j].0) ==> kept@.contains(s0[j]),
            decreases n - i,
        {
            let entry: (u32, u8) = self.entries[i];
            if contains_pid(live, entry.0) {
                proof {
                    assert forall|k: int| 0 <= k < kept@.len() implies kept@[k].0 != s0[
                        i as int
                    ].0 by {
                        let j = choose|j: int| 0 <= j < i && s0[j] == kept@[k];
                    }
                }
                let ghost k0: Seq<(u32, u8)> = kept@;
                kept.push(entry);
                proof {
                    assert(kept@ == k0.push(s0[i as int]));
                    assert forall|j: int|
                        0 <= j < i + 1 && live@.contains(s0[j].0) implies kept@.contains(
                        s0[j],
                    ) by {
                        if j < i {
                            let m = choose|m: int| 0 <= m < k0.len() && k0[m] == s0[j];
                            assert(kept@[m] == s0[j]);
                        } else {
                            assert(kept@[k0.len() as int] == s0[j]);
                        }
                    }
                }
            }
            i += 1;
        }
        self.entries = kept;
        proof {
            let s1 = self.entries@;
            assert forall|q: u32|
                seq_count(s1, q) == (if live@.contains(q) {
                    seq_count(s0, q)
                } else {
                    0u8
                }) by {
                if live@.contains(q) {
                    if exists|j: int| 0 <= j < s0.len() && s0[j].0 == q {
                        let j = choose|j: int| 0 <= j < s0.len() && s0[j].0 == q;
                        lemma_seq_count_found(s0, q, j);
                        assert(s1.contains(s0[j]));
                        let m = choose|m: int| 0 <= m < s1.len() && s1[m] == s0[j];
                        lemma_seq_count_found(s1, q, m);
                    } else {
                        lemma_seq_count_absent(s0, q);
                        assert forall|m: int| 0 <= m < s1.len() implies s1[m].0 != q by {
                            let j = choose|j: int| 0 <= j < s0.len() && s0[j] == s1[m];
                        }
                        lemma_seq_count_absent(s1, q);
                    }
                } else {
                    assert forall|m: int| 0 <= m < s1.len() implies s1[m].0 != q by {
                        assert(live@.contains(s1[m].0));
                    }
                    lemma_seq_count_absent(s1, q);
                }
            }
        }
    }
}

/// Linear membership test for a pid in the list of live pids.
fn contains_pid(live: &Vec<u32>, pid: u32) -> (r: bool)
    ensures
        r == live@.contains(pid),
{
    let n: usize = live.len();
    let mut i: usize = 0;
    while i < n
        invariant
            n == live@.len(),
            i <= n,
            forall|j: int| 0 <= j < i ==> live@[j] != pid,
        decreases n - i,
    {
        if live[i] == pid {
            return true;
        }
        i += 1;
    }
    false
}

} // verus!
