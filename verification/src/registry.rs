//! Registries keyed by id (running processes, terminal sessions, logs of
//! finished processes), and what starting and checking a task process do
//! with the process registered for its id.
use vstd::prelude::*;

use crate::text::same_text;

verus! {

/// What the registry holds for a process id, as last checked.
#[derive(PartialEq, Eq, Structural, Clone, Copy)]
pub enum Registered {
    /// No process is registered.
    Absent,
    /// A registered process that has not exited.
    Running,
    /// A registered process that has exited.
    Exited,
}

/// What starting a task process does.
#[derive(PartialEq, Eq, Structural, Clone, Copy)]
pub enum StartStep {
    /// The process is still running: it is reported as running and not
    /// started again.
    ReportRunning,
    /// A new process is started; `replaces_exited` tells that a registered
    /// process that had exited is dropped for it. Any log archived for the
    /// id is forgotten.
    Launch { replaces_exited: bool },
}

/// The step that starting a process takes.
pub fn start_step(entry: Registered) -> (s: StartStep)
    ensures
        entry == Registered::Running ==> s == StartStep::ReportRunning,
        entry == Registered::Exited ==> s == (StartStep::Launch { replaces_exited: true }),
        entry == Registered::Absent ==> s == (StartStep::Launch { replaces_exited: false }),
{
    match entry {
        Registered::Running => StartStep::ReportRunning,
        Registered::Exited => StartStep::Launch { replaces_exited: true },
        Registered::Absent => StartStep::Launch { replaces_exited: false },
    }
}

/// What checking a process reports, and whether its log is archived and
/// its registration dropped.
#[derive(PartialEq, Eq, Structural, Clone, Copy)]
pub struct StatusStep {
    pub running: bool,
    pub archive: bool,
}

/// The step that checking a process takes: running only while registered
/// and not exited; an exited process is archived and dropped.
pub fn status_step(entry: Registered) -> (s: StatusStep)
    ensures
        s.running == (entry == Registered::Running),
        s.archive == (entry == Registered::Exited),
{
    match entry {
        Registered::Running => StatusStep { running: true, archive: false },
        Registered::Exited => StatusStep { running: false, archive: true },
        Registered::Absent => StatusStep { running: false, archive: false },
    }
}

/// The map that a list of `(id, value)` entries stands for, later entries
/// taking precedence.
pub open spec fn entries_map<T>(s: Seq<(String, T)>) -> Map<Seq<char>, T>
    decreases s.len(),
{
    if s.len() == 0 {
        Map::empty()
    } else {
        entries_map(s.drop_last()).insert(s.last().0@, s.last().1)
    }
}

/// No two entries share an id.
pub open spec fn distinct_ids<T>(s: Seq<(String, T)>) -> bool {
    forall|i: int, j: int| 0 <= i < j < s.len() ==> (#[trigger] s[i]).0@ != (#[trigger] s[j]).0@
}

proof fn lemma_entries_dom<T>(s: Seq<(String, T)>, k: Seq<char>)
    ensures
        entries_map(s).dom().contains(k) <==> exists|i: int| 0 <= i < s.len() && (#[trigger] s[i]).0@ == k,
    decreases s.len(),
{
    if s.len() > 0 {
        lemma_entries_dom(s.drop_last(), k);
        if exists|i: int| 0 <= i < s.len() && (#[trigger] s[i]).0@ == k {
            let i = choose|i: int| 0 <= i < s.len() && (#[trigger] s[i]).0@ == k;
            if i < s.len() - 1 {
                assert(s.drop_last()[i] == s[i]);
            }
        }
        if exists|i: int| 0 <= i < s.len() - 1 && (#[trigger] s.drop_last()[i]).0@ == k {
            let i = choose|i: int| 0 <= i < s.len() - 1 && (#[trigger] s.drop_last()[i]).0@ == k;
            assert(s[i] == s.drop_last()[i]);
        }
    }
}

proof fn lemma_distinct_drop_last<T>(s: Seq<(String, T)>)
    requires
        distinct_ids(s),
        s.len() > 0,
    ensures
        distinct_ids(s.drop_last()),
{
    let d = s.drop_last();
    assert forall|a: int, b: int| 0 <= a < b < d.len() implies (#[trigger] d[a]).0@ != (#[trigger] d[b]).0@ by {
        assert(d[a] == s[a] && d[b] == s[b]);
    }
}

proof fn lemma_entries_value<T>(s: Seq<(String, T)>, i: int)
    requires
        distinct_ids(s),
        0 <= i < s.len(),
    ensures
        entries_map(s).dom().contains(s[i].0@),
        entries_map(s)[s[i].0@] == s[i].1,
    decreases s.len(),
{
    lemma_entries_dom(s, s[i].0@);
    if i < s.len() - 1 {
        let d = s.drop_last();
        assert(d[i] == s[i]);
        lemma_distinct_drop_last(s);
        lemma_entries_value(d, i);
        assert(s[i].0@ != s.last().0@);
    }
}

proof fn lemma_entries_remove<T>(s: Seq<(String, T)>, i: int)
    requires
        distinct_ids(s),
        0 <= i < s.len(),
    ensures
        entries_map(s.remove(i)) == entries_map(s).remove(s[i].0@),
        distinct_ids(s.remove(i)),
    decreases s.len(),
{
    let d = s.drop_last();
    lemma_distinct_drop_last(s);
    let r = s.remove(i);
    assert(distinct_ids(r)) by {
        assert forall|a: int, b: int| 0 <= a < b < r.len() implies (#[trigger] r[a]).0@ != (#[trigger] r[b]).0@ by {
            let a2 = if a < i { a } else { a + 1 };
            let b2 = if b < i { b } else { b + 1 };
            assert(r[a] == s[a2] && r[b] == s[b2]);
        }
    }
    if i == s.len() - 1 {
        assert(r =~= d);
        lemma_entries_dom(d, s[i].0@);
        if exists|j: int| 0 <= j < d.len() && (#[trigger] d[j]).0@ == s[i].0@ {
            let j = choose|j: int| 0 <= j < d.len() && (#[trigger] d[j]).0@ == s[i].0@;
            assert(d[j] == s[j]);
        }
        assert(entries_map(d) =~= entries_map(s).remove(s[i].0@));
    } else {
        lemma_entries_remove(d, i);
        assert(r.drop_last() =~= d.remove(i));
        assert(r.last() == s.last());
        assert(s[i].0@ != s.last().0@);
        assert(entries_map(r) =~= entries_map(s).remove(s[i].0@));
    }
}

/// Values kept by id, each id at most once.
pub struct Registry<T> {
    entries: Vec<(String, T)>,
}

impl<T> View for Registry<T> {
    type V = Map<Seq<char>, T>;

    closed spec fn view(&self) -> Map<Seq<char>, T> {
        entries_map(self.entries@)
    }
}

impl<T> Registry<T> {
    /// Each id is held once.
    pub closed spec fn wf(&self) -> bool {
        distinct_ids(self.entries@)
    }

    /// An empty registry.
    pub fn new() -> (r: Registry<T>)
        ensures
            r.wf(),
            r@ == Map::<Seq<char>, T>::empty(),
    {
        Registry { entries: Vec::new() }
    }

    fn find(&self, id: &str) -> (r: Option<usize>)
        requires
            self.wf(),
        ensures
            r is None ==> !self@.dom().contains(id@),
            r matches Some(i) ==> i < self.entries@.len() && self.entries@[i as int].0@ == id@,
    {
        let mut i: usize = 0;
        while i < self.entries.len()
            invariant
                i <= self.entries@.len(),
                forall|j: int| 0 <= j < i ==> (#[trigger] self.entries@[j]).0@ != id@,
            decreases self.entries@.len() - i,
        {
            if same_text(self.entries[i].0.as_str(), id) {
                return Some(i);
            }
            i = i + 1;
        }
        proof {
            lemma_entries_dom(self.entries@, id@);
        }
        None
    }

    /// Whether a value is kept for `id`.
    pub fn contains(&self, id: &str) -> (r: bool)
        requires
            self.wf(),
        ensures
            r == self@.dom().contains(id@),
    {
        match self.find(id) {
            Some(i) => {
                proof {
                    lemma_entries_value(self.entries@, i as int);
                }
                true
            },
            None => false,
        }
    }

    /// The value kept for `id`.
    pub fn get(&self, id: &str) -> (r: Option<&T>)
        requires
            self.wf(),
        ensures
            r is Some == self@.dom().contains(id@),
            r matches Some(v) ==> *v == self@[id@],
    {
        match self.find(id) {
            Some(i) => {
                proof {
                    lemma_entries_value(self.entries@, i as int);
                }
                Some(&self.entries[i].1)
            },
            None => None,
        }
    }

    /// Takes out the value kept for `id`, if there is one.
    pub fn remove(&mut self, id: &str) -> (r: Option<T>)
        requires
            old(self).wf(),
        ensures
            final(self).wf(),
            final(self)@ == old(self)@.remove(id@),
            r is Some == old(self)@.dom().contains(id@),
            r matches Some(v) ==> v == old(self)@[id@],
    {
        match self.find(id) {
            Some(i) => {
                proof {
                    lemma_entries_value(self.entries@, i as int);
                    lemma_entries_remove(self.entries@, i as int);
                }
                let (_, v) = self.entries.remove(i);
                Some(v)
            },
            None => {
                assert(self@ =~= self@.remove(id@));
                None
            },
        }
    }

    /// Keeps `value` for `id`, in place of any earlier one.
    pub fn insert(&mut self, id: &str, value: T)
        requires
            old(self).wf(),
        ensures
            final(self).wf(),
            final(self)@ == old(self)@.insert(id@, value),
    {
        let _ = self.remove(id);
        let key = String::from_str(id);
        proof {
            lemma_entries_dom(self.entries@, id@);
        }
        let ghost prev = self.entries@;
        self.entries.push((key, value));
        proof {
            assert(self.entries@.drop_last() =~= prev);
            assert forall|a: int, b: int| 0 <= a < b < self.entries@.len() implies (#[trigger] self.entries@[a]).0@ != (#[trigger] self.entries@[b]).0@ by {
                if b == self.entries@.len() - 1 {
                    assert(self.entries@[a] == prev[a]);
                } else {
                    assert(self.entries@[a] == prev[a] && self.entries@[b] == prev[b]);
                }
            }
            assert(old(self)@.remove(id@).insert(id@, value) =~= old(self)@.insert(id@, value));
        }
    }
}

/// The logs of processes that have finished, by process id.
pub type CompletedLogs = Registry<String>;

/// The log kept for `id`, or an empty text.
pub fn archived_log(logs: &CompletedLogs, id: &str) -> (r: String)
    requires
        logs.wf(),
    ensures
        r@ == (if logs@.dom().contains(id@) { logs@[id@]@ } else { Seq::<char>::empty() }),
{
    match logs.get(id) {
        Some(log) => log.clone(),
        None => String::new(),
    }
}

/// What a registry answers after a write: the value just kept for an id,
/// nothing for an id just removed, and the same as before for any other id.
pub proof fn lemma_registry_read_back<T>(m: Map<Seq<char>, T>, id: Seq<char>, other: Seq<char>, v: T)
    requires
        other != id,
    ensures
        m.insert(id, v).dom().contains(id) && m.insert(id, v)[id] == v,
        !m.remove(id).dom().contains(id),
        m.insert(id, v).dom().contains(other) == m.dom().contains(other),
        m.dom().contains(other) ==> m.insert(id, v)[other] == m[other],
        m.remove(id).dom().contains(other) == m.dom().contains(other),
        m.dom().contains(other) ==> m.remove(id)[other] == m[other],
{
}

/// The task processes that run, and the logs of those that finished: the
/// state that starting, checking, stopping and reading a process go
/// through. What the operating system says of a process (whether it has
/// exited, what it wrote) comes in as arguments.
pub struct Supervisor<P> {
    running: Registry<P>,
    finished: CompletedLogs,
}

impl<P> Supervisor<P> {
    /// Both registries hold each id once.
    pub closed spec fn wf(&self) -> bool {
        self.running.wf() && self.finished.wf()
    }

    /// The registered processes, by id.
    pub closed spec fn processes(&self) -> Map<Seq<char>, P> {
        self.running@
    }

    /// The logs of finished processes, by id.
    pub closed spec fn finished_logs(&self) -> Map<Seq<char>, String> {
        self.finished@
    }

    /// What reading the log of `id` gives, where `live` is what its
    /// registered process wrote so far: that while it is registered, else
    /// its archived log, else nothing.
    pub open spec fn log_text(&self, id: Seq<char>, live: Option<Seq<char>>) -> Seq<char> {
        if self.processes().dom().contains(id) {
            match live {
                Some(l) => l,
                None => Seq::empty(),
            }
        } else if self.finished_logs().dom().contains(id) {
            self.finished_logs()[id]@
        } else {
            Seq::empty()
        }
    }

    /// No processes and no logs.
    pub fn new() -> (s: Supervisor<P>)
        ensures
            s.wf(),
            s.processes() == Map::<Seq<char>, P>::empty(),
            s.finished_logs() == Map::<Seq<char>, String>::empty(),
    {
        Supervisor { running: Registry::new(), finished: Registry::new() }
    }

    /// The process registered for `id`.
    pub fn process(&self, id: &str) -> (r: Option<&P>)
        requires
            self.wf(),
        ensures
            r is Some == self.processes().dom().contains(id@),
            r matches Some(p) ==> *p == self.processes()[id@],
    {
        self.running.get(id)
    }

    /// Starting the process of `id`, where `exited` tells whether its
    /// registered process has exited: a running one is reported and left
    /// alone; otherwise the registration and any archived log of `id` are
    /// dropped and a new process is to be launched.
    pub fn start(&mut self, id: &str, exited: bool) -> (step: StartStep)
        requires
            old(self).wf(),
        ensures
            final(self).wf(),
            old(self).processes().dom().contains(id@) && !exited ==> step == StartStep::ReportRunning
                && final(self).processes() == old(self).processes()
                && final(self).finished_logs() == old(self).finished_logs(),
            !(old(self).processes().dom().contains(id@) && !exited) ==> step == (StartStep::Launch {
                replaces_exited: old(self).processes().dom().contains(id@),
            }) && final(self).processes() == old(self).processes().remove(id@)
                && final(self).finished_logs() == old(self).finished_logs().remove(id@),
    {
        let entry = if !self.running.contains(id) {
            Registered::Absent
        } else if exited {
            Registered::Exited
        } else {
            Registered::Running
        };
        let step = start_step(entry);
        match step {
            StartStep::ReportRunning => {},
            StartStep::Launch { .. } => {
                let _ = self.running.remove(id);
                let _ = self.finished.remove(id);
            },
        }
        step
    }

    /// Registers the process launched for `id`.
    pub fn launched(&mut self, id: &str, process: P)
        requires
            old(self).wf(),
        ensures
            final(self).wf(),
            final(self).processes() == old(self).processes().insert(id@, process),
            final(self).finished_logs() == old(self).finished_logs(),
    {
        self.running.insert(id, process);
    }

    /// Checks the process of `id`, where `exited` tells whether it has
    /// exited and `final_log` is what it wrote: running only while
    /// registered and not exited; an exited process is dropped and its log
    /// archived, so that reading its log gives `final_log`.
    pub fn check(&mut self, id: &str, exited: bool, final_log: String) -> (running: bool)
        requires
            old(self).wf(),
        ensures
            final(self).wf(),
            running == (old(self).processes().dom().contains(id@) && !exited),
            !(old(self).processes().dom().contains(id@) && exited) ==> final(self).processes()
                == old(self).processes() && final(self).finished_logs() == old(self).finished_logs(),
            old(self).processes().dom().contains(id@) && exited ==> final(self).processes()
                == old(self).processes().remove(id@) && final(self).finished_logs()
                == old(self).finished_logs().insert(id@, final_log),
            old(self).processes().dom().contains(id@) && exited ==> forall|live: Option<Seq<char>>|
                #[trigger] final(self).log_text(id@, live) == final_log@,
    {
        let entry = if !self.running.contains(id) {
            Registered::Absent
        } else if exited {
            Registered::Exited
        } else {
            Registered::Running
        };
        let step = status_step(entry);
        if step.archive {
            let _ = self.running.remove(id);
            self.finished.insert(id, final_log);
        }
        step.running
    }

    /// Stops tracking the process of `id` and hands it back, to be killed.
    pub fn stop(&mut self, id: &str) -> (r: Option<P>)
        requires
            old(self).wf(),
        ensures
            final(self).wf(),
            r is Some == old(self).processes().dom().contains(id@),
            r matches Some(p) ==> p == old(self).processes()[id@],
            final(self).processes() == old(self).processes().remove(id@),
            final(self).finished_logs() == old(self).finished_logs(),
    {
        self.running.remove(id)
    }

    /// Archives `log` as the final log of `id`; once `id` has no registered
    /// process, reading its log gives `log`.
    pub fn archive(&mut self, id: &str, log: String)
        requires
            old(self).wf(),
        ensures
            final(self).wf(),
            final(self).processes() == old(self).processes(),
            final(self).finished_logs() == old(self).finished_logs().insert(id@, log),
            !old(self).processes().dom().contains(id@) ==> forall|live: Option<Seq<char>>|
                #[trigger] final(self).log_text(id@, live) == log@,
    {
        self.finished.insert(id, log);
    }

    /// The log of `id`, where `live` is what its registered process wrote so
    /// far.
    pub fn log(&self, id: &str, live: Option<String>) -> (r: String)
        requires
            self.wf(),
        ensures
            r@ == self.log_text(id@, crate::text::opt_chars(live)),
    {
        if self.running.contains(id) {
            match live {
                Some(l) => l,
                None => String::new(),
            }
        } else {
            archived_log(&self.finished, id)
        }
    }
}

/// Keeps a terminal session after a read while its process runs; drops it
/// once the process has exited.
pub fn finish_session_read<S>(sessions: &mut Registry<S>, id: &str, running: bool)
    requires
        old(sessions).wf(),
    ensures
        final(sessions).wf(),
        running ==> final(sessions)@ == old(sessions)@,
        !running ==> final(sessions)@ == old(sessions)@.remove(id@),
{
    if !running {
        let _ = sessions.remove(id);
    }
}

} // verus!
