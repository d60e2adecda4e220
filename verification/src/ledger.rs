use vstd::prelude::*;

verus! {

broadcast use vstd::set::group_set_axioms, vstd::seq_lib::group_seq_lib_default;

/// The durable ignore-list: for each executable path, the set of command
/// lines the user has explicitly exempted from hog detection.
///
/// Modelled as a map from executable path to a set of command lines. The
/// concrete representation keeps one entry per executable, each holding its
/// distinct ignored command lines, so set cardinality can be read off the
/// lengths.
pub struct IgnoreLedger {
    entries: Vec<(String, Vec<String>)>,
}

/// The abstract content of one concrete entry list: executable path and
/// command lines as character sequences.
pub open spec fn entries_view(s: Seq<(String, Vec<String>)>) -> Seq<(Seq<char>, Seq<Seq<char>>)> {
    Seq::new(s.len(), |i: int| (s[i].0@, s[i].1.deep_view()))
}

/// Entry lists that faithfully represent a map of sets: one entry per
/// executable, no command line listed twice under one executable.
pub open spec fn wf_entries(s: Seq<(Seq<char>, Seq<Seq<char>>)>) -> bool {
    &&& forall|i: int, j: int| 0 <= i < j < s.len() ==> s[i].0 != s[j].0
    &&& forall|i: int| 0 <= i < s.len() ==> s[i].1.no_duplicates()
}

/// Whether some entry carries this executable path.
pub open spec fn has_key(s: Seq<(Seq<char>, Seq<Seq<char>>)>, k: Seq<char>) -> bool {
    exists|i: int| 0 <= i < s.len() && s[i].0 == k
}

/// The position of the entry for this executable path.
pub open spec fn entry_index(s: Seq<(Seq<char>, Seq<Seq<char>>)>, k: Seq<char>) -> int {
    choose|i: int| 0 <= i < s.len() && s[i].0 == k
}

/// The ledger a well-formed entry list stands for: executable path to the
/// set of ignored command lines.
pub open spec fn entries_model(s: Seq<(Seq<char>, Seq<Seq<char>>)>) -> Map<
    Seq<char>,
    Set<Seq<char>>,
> {
    Map::new(|k: Seq<char>| has_key(s, k), |k: Seq<char>| s[entry_index(s, k)].1.to_set())
}

/// The exemption rule: a process is ignored when its executable has an entry
/// and either its exact command line was ignored before, or at least
/// `promote` distinct command lines of that executable were, in which case
/// the whole executable is treated as noise.
pub open spec fn spec_should_ignore(
    m: Map<Seq<char>, Set<Seq<char>>>,
    exe: Seq<char>,
    cmd: Seq<char>,
    promote: int,
) -> bool {
    m.contains_key(exe) && (m[exe].contains(cmd) || m[exe].len() >= promote)
}

/// The set recorded for `exe` after ignoring `cmd`: the previous set, or a
/// fresh one, with `cmd` added.
pub open spec fn set_after_ignore(
    m: Map<Seq<char>, Set<Seq<char>>>,
    exe: Seq<char>,
    cmd: Seq<char>,
) -> Set<Seq<char>> {
    if m.contains_key(exe) {
        m[exe].insert(cmd)
    } else {
        Set::<Seq<char>>::empty().insert(cmd)
    }
}

/// Promotion law: while an executable has fewer than `promote` distinct
/// ignored command lines, only those exact command lines are exempt; once it
/// has at least `promote`, every command line of that executable is exempt;
/// an executable with no entry exempts nothing.
pub proof fn lemma_promotion(
    m: Map<Seq<char>, Set<Seq<char>>>,
    exe: Seq<char>,
    cmd: Seq<char>,
    promote: int,
)
    ensures
        m.contains_key(exe) && m[exe].len() < promote ==> (spec_should_ignore(m, exe, cmd, promote)
            <==> m[exe].contains(cmd)),
        m.contains_key(exe) && m[exe].len() >= promote ==> spec_should_ignore(
            m,
            exe,
            cmd,
            promote,
        ),
        !m.contains_key(exe) ==> !spec_should_ignore(m, exe, cmd, promote),
{
}

/// Linear search for a command line among a vector of command lines.
fn contains_cmd(cmds: &Vec<String>, cmd: &String) -> (r: bool)
    ensures
        r == cmds.deep_view().contains(cmd@),
{
    let n: usize = cmds.len();
    let mut i: usize = 0;
    while i < n
        invariant
            n == cmds@.len(),
            i <= n,
            forall|j: int| 0 <= j < i ==> cmds.deep_view()[j] != cmd@,
        decreases n - i,
    {
        if cmds[i] == *cmd {
            proof {
                assert(cmds.deep_view()[i as int] == cmd@);
            }
            return true;
        }
        i += 1;
    }
    proof {
        assert(forall|j: int| 0 <= j < cmds.deep_view().len() ==> cmds.deep_view()[j] != cmd@);
    }
    false
}

impl IgnoreLedger {
    /// The abstract entry list.
    pub closed spec fn entry_seq(self) -> Seq<(Seq<char>, Seq<Seq<char>>)> {
        entries_view(self.entries@)
    }

    /// Well-formedness: the entry list represents a map of sets.
    pub open spec fn wf(self) -> bool {
        wf_entries(self.entry_seq())
    }

    /// The ledger as a map from executable path to ignored command lines.
    pub open spec fn view(self) -> Map<Seq<char>, Set<Seq<char>>> {
        entries_model(self.entry_seq())
    }

    /// An empty ledger: no executable has any ignored command line.
    pub fn new() -> (r: Self)
        ensures
            r.wf(),
            r@ == Map::<Seq<char>, Set<Seq<char>>>::empty(),
    {
        let r = IgnoreLedger { entries: Vec::new() };
        proof {
            assert(r@ =~= Map::<Seq<char>, Set<Seq<char>>>::empty());
        }
        r
    }

    /// Finds the entry holding this executable path, if any.
    fn find_entry(&self, exe: &String) -> (r: Option<usize>)
        requires
            self.wf(),
        ensures
            match r {
                Some(i) => i < self.entry_seq().len() && self.entry_seq()[i as int].0 == exe@,
                None => !has_key(self.entry_seq(), exe@),
            },
    {
        let n: usize = self.entries.len();
        let mut i: usize = 0;
        while i < n
            invariant
                self.wf(),
                n == self.entries@.len(),
                i <= n,
                forall|j: int| 0 <= j < i ==> self.entry_seq()[j].0 != exe@,
            decreases n - i,
        {
            if self.entries[i].0 == *exe {
                return Some(i);
            }
            i += 1;
        }
        None
    }

    /// Whether a process with this identity is exempt from detection.
    pub fn should_ignore(&self, exe: &String, cmd: &String, promote_threshold: usize) -> (r: bool)
        requires
            self.wf(),
        ensures
            r == spec_should_ignore(self@, exe@, cmd@, promote_threshold as int),
    {
        match self.find_entry(exe) {
            None => false,
            Some(i) => {
                proof {
                    lemma_entry_lookup(self.entry_seq(), i as int);
                }
                let cmds: &Vec<String> = &self.entries[i].1;
                proof {
                    assert(cmds.deep_view() == self.entry_seq()[i as int].1);
                    cmds.deep_view().unique_seq_to_set();
                }
                contains_cmd(cmds, cmd) || cmds.len() >= promote_threshold
            },
        }
    }

    /// Records an ignore decision: adds `cmd` to the set for `exe`, creating
    /// the entry if absent. Returns whether the ledger changed; re-ignoring
    /// an already-ignored command line is a no-op.
    pub fn ignore(&mut self, exe: &String, cmd: &String) -> (changed: bool)
        requires
            old(self).wf(),
        ensures
            final(self).wf(),
            final(self)@ == old(self)@.insert(exe@, set_after_ignore(old(self)@, exe@, cmd@)),
            changed == !(old(self)@.contains_key(exe@) && old(self)@[exe@].contains(cmd@)),
    {
        let ghost s0: Seq<(Seq<char>, Seq<Seq<char>>)> = self.entry_seq();
        match self.find_entry(exe) {
            None => {
                let mut cmds: Vec<String> = Vec::new();
                cmds.push(cmd.clone());
                self.entries.push((exe.clone(), cmds));
                proof {
                    let s1 = self.entry_seq();
                    assert(s1 =~~= s0.push((exe@, seq![cmd@])));
                    lemma_model_after_push(s0, exe@, cmd@);
                    assert(self@ == old(self)@.insert(
                        exe@,
                        set_after_ignore(old(self)@, exe@, cmd@),
                    ));
                }
                true
            },
            Some(i) => {
                proof {
                    lemma_entry_lookup(s0, i as int);
                }
                let already = contains_cmd(&self.entries[i].1, cmd);
                if already {
                    proof {
                        assert(old(self)@[exe@].contains(cmd@));
                        assert(old(self)@[exe@].insert(cmd@) =~= old(self)@[exe@]);
                        assert(self@ =~= old(self)@.insert(
                            exe@,
                            set_after_ignore(old(self)@, exe@, cmd@),
                        ));
                    }
                    false
                } else {
                    let mut entry: (String, Vec<String>) = self.entries.remove(i);
                    entry.1.push(cmd.clone());
                    self.entries.insert(i, entry);
                    proof {
                        let s1 = self.entry_seq();
                        assert(s1 =~~= s0.update(i as int, (s0[i as int].0, s0[i as int].1.push(cmd@))));
                        lemma_model_after_update(s0, i as int, cmd@);
                        assert(self@ == old(self)@.insert(
                            exe@,
                            set_after_ignore(old(self)@, exe@, cmd@),
                        ));
                    }
                    true
                }
            },
        }
    }
}

/// With one entry per executable, the model's set for an entry's key is that
/// entry's command lines.
proof fn lemma_entry_lookup(s: Seq<(Seq<char>, Seq<Seq<char>>)>, i: int)
    requires
        wf_entries(s),
        0 <= i < s.len(),
    ensures
        has_key(s, s[i].0),
        entry_index(s, s[i].0) == i,
        entries_model(s).contains_key(s[i].0),
        entries_model(s)[s[i].0] == s[i].1.to_set(),
{
    assert(has_key(s, s[i].0));
    let j = entry_index(s, s[i].0);
    if j != i {
        assert(s[j].0 == s[i].0);
        assert(false);
    }
}

/// Appending a fresh entry adds exactly one key to the model, holding the
/// singleton set of the new command line.
proof fn lemma_model_after_push(s: Seq<(Seq<char>, Seq<Seq<char>>)>, exe: Seq<char>, cmd: Seq<char>)
    requires
        wf_entries(s),
        !has_key(s, exe),
    ensures
        wf_entries(s.push((exe, seq![cmd]))),
        entries_model(s.push((exe, seq![cmd]))) == entries_model(s).insert(
            exe,
            set_after_ignore(entries_model(s), exe, cmd),
        ),
{
    let s1 = s.push((exe, seq![cmd]));
    assert forall|i: int, j: int| 0 <= i < j < s1.len() implies s1[i].0 != s1[j].0 by {
        if j < s.len() {
            assert(s1[i] == s[i] && s1[j] == s[j]);
        } else {
            assert(s1[j].0 == exe && s1[i] == s[i]);
            assert(has_key(s, s[i].0));
        }
    }
    assert forall|i: int| 0 <= i < s1.len() implies s1[i].1.no_duplicates() by {
        if i < s.len() {
            assert(s1[i] == s[i]);
        } else {
            assert(s1[i].1 == seq![cmd]);
        }
    }
    let m0 = entries_model(s);
    let m1 = entries_model(s1);
    let target = m0.insert(exe, set_after_ignore(m0, exe, cmd));
    assert forall|k: Seq<char>| m1.contains_key(k) <==> target.contains_key(k) by {
        if k == exe {
            assert(s1[s.len() as int].0 == exe);
        } else {
            if has_key(s1, k) {
                let i = choose|i: int| 0 <= i < s1.len() && s1[i].0 == k;
                assert(i < s.len() && s[i] == s1[i]);
            }
            if has_key(s, k) {
                let i = choose|i: int| 0 <= i < s.len() && s[i].0 == k;
                assert(s1[i] == s[i]);
            }
        }
    }
    assert forall|k: Seq<char>| m1.contains_key(k) implies m1[k] == target[k] by {
        if k == exe {
            lemma_entry_lookup(s1, s.len() as int);
            assert(m1[k] == seq![cmd].to_set());
            assert(seq![cmd] =~= Seq::<Seq<char>>::empty().push(cmd));
            Seq::<Seq<char>>::empty().lemma_push_to_set_commute(cmd);
            assert(Seq::<Seq<char>>::empty().to_set() =~= Set::<Seq<char>>::empty());
            assert(seq![cmd].to_set() =~= Set::<Seq<char>>::empty().insert(cmd));
        } else {
            let i = choose|i: int| 0 <= i < s1.len() && s1[i].0 == k;
            assert(i < s.len() && s[i] == s1[i]);
            lemma_entry_lookup(s1, i);
            lemma_entry_lookup(s, i);
        }
    }
    assert(m1 =~= target);
}

/// Pushing a command line into an existing entry updates exactly that
/// executable's set in the model.
proof fn lemma_model_after_update(s: Seq<(Seq<char>, Seq<Seq<char>>)>, i: int, cmd: Seq<char>)
    requires
        wf_entries(s),
        0 <= i < s.len(),
        !s[i].1.contains(cmd),
    ensures
        wf_entries(s.update(i, (s[i].0, s[i].1.push(cmd)))),
        entries_model(s.update(i, (s[i].0, s[i].1.push(cmd)))) == entries_model(s).insert(
            s[i].0,
            set_after_ignore(entries_model(s), s[i].0, cmd),
        ),
{
    let exe = s[i].0;
    let s1 = s.update(i, (exe, s[i].1.push(cmd)));
    assert forall|p: int, q: int| 0 <= p < q < s1.len() implies s1[p].0 != s1[q].0 by {
        assert(s1[p].0 == s[p].0 && s1[q].0 == s[q].0);
    }
    assert forall|p: int| 0 <= p < s1.len() implies s1[p].1.no_duplicates() by {
        if p != i {
            assert(s1[p] == s[p]);
        } else {
            lemma_push_no_duplicates(s[i].1, cmd);
        }
    }
    let m0 = entries_model(s);
    let m1 = entries_model(s1);
    lemma_entry_lookup(s, i);
    lemma_entry_lookup(s1, i);
    let target = m0.insert(exe, set_after_ignore(m0, exe, cmd));
    assert forall|k: Seq<char>| m1.contains_key(k) <==> target.contains_key(k) by {
        if has_key(s1, k) {
            let p = choose|p: int| 0 <= p < s1.len() && s1[p].0 == k;
            assert(s[p].0 == k);
        }
        if has_key(s, k) {
            let p = choose|p: int| 0 <= p < s.len() && s[p].0 == k;
            assert(s1[p].0 == k);
        }
    }
    assert forall|k: Seq<char>| m1.contains_key(k) implies m1[k] == target[k] by {
        if k == exe {
            assert(m1[k] == s[i].1.push(cmd).to_set());
            s[i].1.lemma_push_to_set_commute(cmd);
            assert(s[i].1.push(cmd).to_set() =~= s[i].1.to_set().insert(cmd));
        } else {
            let p = choose|p: int| 0 <= p < s1.len() && s1[p].0 == k;
            assert(p != i && s1[p] == s[p]);
            lemma_entry_lookup(s1, p);
            lemma_entry_lookup(s, p);
        }
    }
    assert(m1 =~= target);
}

/// Why a cache file's contents could not be accepted as a ledger.
#[derive(Debug, PartialEq, Eq, Structural)]
pub enum CacheError {
    /// The file is non-empty and is not exactly the encoding of a ledger.
    Corrupt,
}

/// What loading a cache file yields: the entry list it encodes, provided
/// that list is well-formed; anything else is corruption.
pub open spec fn spec_load(b: Seq<u8>) -> Option<Seq<(Seq<char>, Seq<Seq<char>>)>> {
    match crate::codec::spec_parse_ledger(b) {
        Some(s) => if wf_entries(s) {
            Some(s)
        } else {
            None
        },
        None => None,
    }
}

/// Checks that no two elements of the vector are equal strings.
fn distinct_strings(v: &Vec<String>) -> (r: bool)
    ensures
        r == v.deep_view().no_duplicates(),
{
    let n: usize = v.len();
    let mut i: usize = 0;
    while i < n
        invariant
            n == v@.len(),
            i <= n,
            forall|p: int, q: int|
                0 <= p < i && p < q < n ==> v.deep_view()[p] != v.deep_view()[q],
        decreases n - i,
    {
        let mut j: usize = i + 1;
        while j < n
            invariant
                n == v@.len(),
                i < j <= n,
                forall|q: int| i < q < j ==> v.deep_view()[i as int] != v.deep_view()[q],
            decreases n - j,
        {
            if v[i] == v[j] {
                proof {
                    assert(v.deep_view()[i as int] == v.deep_view()[j as int]);
                }
                return false;
            }
            j += 1;
        }
        i += 1;
    }
    proof {
        let dv = v.deep_view();
        assert forall|p: int, q: int|
            (0 <= p < dv.len() && 0 <= q < dv.len() && p != q) implies dv[p] != dv[q] by {
            if p < q {
            } else {
                assert(dv[q] != dv[p]);
            }
        }
    }
    true
}

/// Checks that no two entries carry the same executable path.
fn distinct_exes(entries: &Vec<(String, Vec<String>)>) -> (r: bool)
    ensures
        r == (forall|p: int, q: int|
            0 <= p < q < entries_view(entries@).len() ==> entries_view(entries@)[p].0
                != entries_view(entries@)[q].0),
{
    let n: usize = entries.len();
    let mut i: usize = 0;
    while i < n
        invariant
            n == entries@.len(),
            i <= n,
            forall|p: int, q: int|
                0 <= p < i && p < q < n ==> entries_view(entries@)[p].0 != entries_view(
                    entries@,
                )[q].0,
        decreases n - i,
    {
        let mut j: usize = i + 1;
        while j < n
            invariant
                n == entries@.len(),
                i < j <= n,
                forall|q: int|
                    i < q < j ==> entries_view(entries@)[i as int].0 != entries_view(
                        entries@,
                    )[q].0,
            decreases n - j,
        {
            if entries[i].0 == entries[j].0 {
                proof {
                    assert(entries_view(entries@)[i as int].0 == entries_view(
                        entries@,
                    )[j as int].0);
                }
                return false;
            }
            j += 1;
        }
        i += 1;
    }
    true
}

/// Checks that an entry list represents a map of sets: distinct executable
/// paths, distinct command lines under each.
fn wf_check(entries: &Vec<(String, Vec<String>)>) -> (r: bool)
    ensures
        r == wf_entries(entries_view(entries@)),
{
    if !distinct_exes(entries) {
        return false;
    }
    let n: usize = entries.len();
    let mut i: usize = 0;
    while i < n
        invariant
            n == entries@.len(),
            i <= n,
            forall|p: int, q: int|
                0 <= p < q < entries_view(entries@).len() ==> entries_view(entries@)[p].0
                    != entries_view(entries@)[q].0,
            forall|p: int| 0 <= p < i ==> entries_view(entries@)[p].1.no_duplicates(),
        decreases n - i,
    {
        if !distinct_strings(&entries[i].1) {
            proof {
                assert(entries_view(entries@)[i as int].1 == entries@[i as int].1.deep_view());
            }
            return false;
        }
        proof {
            assert(entries_view(entries@)[i as int].1 == entries@[i as int].1.deep_view());
        }
        i += 1;
    }
    true
}

impl IgnoreLedger {
    /// Serializes the ledger for the cache file.
    pub fn to_bytes(&self) -> (r: Vec<u8>)
        ensures
            r@ == crate::codec::spec_encode(self.entry_seq()),
            crate::codec::entries_encodable(self.entry_seq()),
    {
        crate::codec::encode_entries(&self.entries)
    }

    /// Reads a ledger back from a cache file's contents. An empty file is an
    /// empty ledger; a non-empty file that is not exactly the encoding of a
    /// well-formed ledger is reported as corrupt, never as empty.
    pub fn from_bytes(b: &Vec<u8>) -> (r: Result<IgnoreLedger, CacheError>)
        ensures
            match r {
                Ok(l) => l.wf() && spec_load(b@) == Some(l.entry_seq()),
                Err(_) => spec_load(b@) is None,
            },
            b@.len() == 0 ==> (r matches Ok(l) && l@ == Map::<Seq<char>, Set<Seq<char>>>::empty()),
    {
        match crate::codec::decode_ledger(b) {
            None => Err(CacheError::Corrupt),
            Some(v) => {
                if wf_check(&v) {
                    let l = IgnoreLedger { entries: v };
                    proof {
                        if b@.len() == 0 {
                            assert(l.entry_seq().len() == 0);
                            assert(l@ =~= Map::<Seq<char>, Set<Seq<char>>>::empty());
                        }
                    }
                    Ok(l)
                } else {
                    Err(CacheError::Corrupt)
                }
            },
        }
    }
}

/// Round-trip law: the bytes saved from a well-formed ledger always load
/// back as exactly the ledger's content, never as an error and never as
/// anything else.
pub proof fn lemma_save_load_round_trip(l: IgnoreLedger)
    requires
        l.wf(),
        crate::codec::entries_encodable(l.entry_seq()),
    ensures
        spec_load(crate::codec::spec_encode(l.entry_seq())) == Some(l.entry_seq()),
{
    crate::codec::lemma_encode_parse_round_trip(l.entry_seq());
}

/// A sequence without duplicates stays duplicate-free when an element it
/// does not contain is appended.
proof fn lemma_push_no_duplicates(s: Seq<Seq<char>>, v: Seq<char>)
    requires
        s.no_duplicates(),
        !s.contains(v),
    ensures
        s.push(v).no_duplicates(),
{
    let s1 = s.push(v);
    assert forall|p: int, q: int| 0 <= p < q < s1.len() implies s1[p] != s1[q] by {
        if q < s.len() {
            assert(s1[p] == s[p] && s1[q] == s[q]);
        } else {
            assert(s1[q] == v && s1[p] == s[p]);
            assert(s.contains(s[p]));
        }
    }
}

} // verus!
