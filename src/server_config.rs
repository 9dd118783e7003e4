use vstd::prelude::*;

verus! {

/// How queries are resolved.
#[derive(Clone, Debug)]
pub enum ResolveType {
    /// Walk down from the root servers.
    Recursive,
    /// Ask one upstream resolver.
    Forward { host: String, port: u16 },
}

/// One snapshot of the configuration.
#[derive(Clone, Debug)]
pub struct ServerContext {
    pub dns_port: u16,
    pub dns_host: String,
    pub resolve_strategy: ResolveType,
    pub allow_recursive: bool,
    pub enable_udp: bool,
    pub enable_tcp: bool,
    pub thread_count: usize,
}

/// Two snapshots ask for the same listeners: same address, port, recursion
/// policy, enabled transports and worker count. The strategy is read per query
/// and so takes no part.
pub open spec fn same_listeners(a: ServerContext, b: ServerContext) -> bool {
    &&& a.dns_host@ == b.dns_host@
    &&& a.dns_port == b.dns_port
    &&& a.allow_recursive == b.allow_recursive
    &&& a.enable_tcp == b.enable_tcp
    &&& a.enable_udp == b.enable_udp
    &&& a.thread_count == b.thread_count
}

impl ServerContext {
    /// The configuration in force before any file is read: port 53 on every
    /// interface, recursive, no recursion offered, no listener, one worker.
    pub fn new() -> (r: ServerContext)
        ensures
            r.dns_port == 53,
            r.dns_host@ == "0.0.0.0"@,
            r.resolve_strategy is Recursive,
            !r.allow_recursive,
            !r.enable_udp,
            !r.enable_tcp,
            r.thread_count == 1,
    {
        ServerContext {
            dns_port: 53,
            dns_host: "0.0.0.0".to_owned(),
            resolve_strategy: ResolveType::Recursive,
            allow_recursive: false,
            enable_udp: false,
            enable_tcp: false,
            thread_count: 1,
        }
    }
}

impl PartialEq for ServerContext {
    fn eq(&self, other: &ServerContext) -> (r: bool)
        ensures
            r == same_listeners(*self, *other),
    {
        self.dns_host == other.dns_host && self.dns_port == other.dns_port && self.allow_recursive
            == other.allow_recursive && self.enable_tcp == other.enable_tcp && self.enable_udp
            == other.enable_udp && self.thread_count == other.thread_count
    }
}

impl vstd::std_specs::cmp::PartialEqSpecImpl for ServerContext {
    open spec fn obeys_eq_spec() -> bool {
        true
    }

    open spec fn eq_spec(&self, other: &ServerContext) -> bool {
        same_listeners(*self, *other)
    }
}

/// What to do with one listener when the configuration changes.
#[derive(Clone, Copy, Debug, PartialEq, Eq, Structural)]
pub enum ListenerAction {
    Start,
    Restart,
    Stop,
    Keep,
}

/// The action for a listener that was running or not and is now enabled or not:
/// an enabled one starts, or restarts to take the new settings; a disabled one
/// that ran stops.
pub open spec fn listener_action_of(running: bool, enabled: bool) -> ListenerAction {
    if enabled && !running {
        ListenerAction::Start
    } else if enabled && running {
        ListenerAction::Restart
    } else if running {
        ListenerAction::Stop
    } else {
        ListenerAction::Keep
    }
}

/// Decides what to do with a listener after the configuration changed.
pub fn listener_action(running: bool, enabled: bool) -> (r: ListenerAction)
    ensures
        r == listener_action_of(running, enabled),
{
    if enabled && !running {
        ListenerAction::Start
    } else if enabled && running {
        ListenerAction::Restart
    } else if running {
        ListenerAction::Stop
    } else {
        ListenerAction::Keep
    }
}

/// Time within which a second change event for a path is ignored, in milliseconds.
pub const DEBOUNCE_MILLIS: u64 = 1000;

/// The last time each path's change was handled.
#[derive(Clone, Debug)]
pub struct Debouncer {
    pub last_seen: Vec<(String, u64)>,
}

/// Index of the first record for `path` from `from` on.
pub open spec fn find_path(seen: Seq<(Seq<char>, u64)>, path: Seq<char>, from: int) -> Option<int>
    decreases seen.len() - from,
{
    if from < 0 || from >= seen.len() {
        None
    } else if seen[from].0 == path {
        Some(from)
    } else {
        find_path(seen, path, from + 1)
    }
}

/// The paths and times recorded, paths as text.
pub open spec fn seen_view(v: Seq<(String, u64)>) -> Seq<(Seq<char>, u64)> {
    v.map_values(|e: (String, u64)| (e.0@, e.1))
}

/// An event for `path` at `now` is handled unless the path's last handled event
/// is less than `DEBOUNCE_MILLIS` before it.
pub open spec fn should_handle(seen: Seq<(Seq<char>, u64)>, path: Seq<char>, now: u64) -> bool {
    match find_path(seen, path, 0) {
        Some(i) => !(seen[i].1 <= now && now - seen[i].1 < DEBOUNCE_MILLIS),
        None => true,
    }
}

/// The records after an event for `path` at `now`: a handled event becomes the
/// path's last one.
pub open spec fn after_event(seen: Seq<(Seq<char>, u64)>, path: Seq<char>, now: u64) -> Seq<
    (Seq<char>, u64),
> {
    if should_handle(seen, path, now) {
        match find_path(seen, path, 0) {
            Some(i) => seen.update(i, (path, now)),
            None => seen.push((path, now)),
        }
    } else {
        seen
    }
}

proof fn lemma_find_path(seen: Seq<(Seq<char>, u64)>, path: Seq<char>, from: int)
    ensures
        find_path(seen, path, from) matches Some(i) ==> from <= i < seen.len() && seen[i].0 == path,
    decreases seen.len() - from,
{
    if 0 <= from < seen.len() && seen[from].0 != path {
        lemma_find_path(seen, path, from + 1);
    }
}

impl Debouncer {
    /// No path seen yet.
    pub fn new() -> (r: Debouncer)
        ensures
            seen_view(r.last_seen@) == Seq::<(Seq<char>, u64)>::empty(),
    {
        let r = Debouncer { last_seen: Vec::new() };
        assert(seen_view(r.last_seen@) =~= Seq::<(Seq<char>, u64)>::empty());
        r
    }

    /// Whether a change event for `path` at `now` (milliseconds) is to be handled;
    /// a handled one is recorded as the path's last.
    pub fn on_event(&mut self, path: &str, now: u64) -> (r: bool)
        ensures
            r == should_handle(seen_view(old(self).last_seen@), path@, now),
            seen_view(final(self).last_seen@) == after_event(seen_view(old(self).last_seen@), path@, now),
    {
        let ghost seen = seen_view(self.last_seen@);
        proof {
            lemma_find_path(seen, path@, 0);
        }
        let key = path.to_owned();
        let mut i: usize = 0;
        let mut found: Option<usize> = None;
        while i < self.last_seen.len()
            invariant_except_break
                found is None,
            invariant
                i <= self.last_seen@.len(),
                seen == seen_view(self.last_seen@),
                key@ == path@,
                found is None ==> find_path(seen, path@, 0) == find_path(seen, path@, i as int),
                found matches Some(j) ==> find_path(seen, path@, 0) == Some(j as int),
            ensures
                seen == seen_view(self.last_seen@),
                found is None ==> find_path(seen, path@, 0) is None,
                found matches Some(j) ==> find_path(seen, path@, 0) == Some(j as int),
            decreases self.last_seen@.len() - i,
        {
            assert(seen[i as int].0 == self.last_seen@[i as int].0@);
            if self.last_seen[i].0 == key {
                found = Some(i);
                break;
            }
            i = i + 1;
        }
        match found {
            Some(j) => {
                let last = self.last_seen[j].1;
                if last <= now && now - last < DEBOUNCE_MILLIS {
                    return false;
                }
                self.last_seen.set(j, (key, now));
                assert(seen_view(self.last_seen@) =~= seen.update(j as int, (path@, now)));
                true
            },
            None => {
                self.last_seen.push((key, now));
                assert(seen_view(self.last_seen@) =~= seen.push((path@, now)));
                true
            },
        }
    }
}

} // verus!
