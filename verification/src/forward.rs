use vstd::prelude::*;

verus! {

/// The largest delay between two reconnection attempts, in seconds.
pub const MAX_BACKOFF_SECS: u64 = 30;

/// A saved port forward: `ssh -L` ("local") or `ssh -R` ("remote") through a
/// host alias of ~/.ssh/config.
#[derive(Debug)]
pub struct ForwardConfig {
    pub id: String,
    pub alias: String,
    pub direction: String,
    pub local_port: u16,
    pub remote_host: String,
    pub remote_port: u16,
}

pub struct ForwardConfigView {
    pub id: Seq<char>,
    pub alias: Seq<char>,
    pub direction: Seq<char>,
    pub local_port: u16,
    pub remote_host: Seq<char>,
    pub remote_port: u16,
}

impl View for ForwardConfig {
    type V = ForwardConfigView;

    open spec fn view(&self) -> ForwardConfigView {
        ForwardConfigView {
            id: self.id@,
            alias: self.alias@,
            direction: self.direction@,
            local_port: self.local_port,
            remote_host: self.remote_host@,
            remote_port: self.remote_port,
        }
    }
}

impl ForwardConfig {
    /// A copy of the configuration.
    pub fn duplicate(&self) -> (r: ForwardConfig)
        ensures
            r@ == self@,
    {
        ForwardConfig {
            id: self.id.clone(),
            alias: self.alias.clone(),
            direction: self.direction.clone(),
            local_port: self.local_port,
            remote_host: self.remote_host.clone(),
            remote_port: self.remote_port,
        }
    }
}

/// Where a forward stands, as reported to the user.
#[derive(Clone, Copy, Debug, PartialEq, Eq, Structural)]
pub enum ForwardStatus {
    Connecting,
    Active,
    Retrying,
    Stopped,
}

/// A forward with its current status, last error and number of retries.
#[derive(Debug)]
pub struct ForwardInfo {
    pub config: ForwardConfig,
    pub status: ForwardStatus,
    pub last_error: Option<String>,
    pub retry_count: u32,
}

pub struct ForwardInfoView {
    pub config: ForwardConfigView,
    pub status: ForwardStatus,
    pub last_error: Option<Seq<char>>,
    pub retry_count: u32,
}

impl View for ForwardInfo {
    type V = ForwardInfoView;

    open spec fn view(&self) -> ForwardInfoView {
        ForwardInfoView {
            config: self.config@,
            status: self.status,
            last_error: self.last_error.deep_view(),
            retry_count: self.retry_count,
        }
    }
}

fn copy_opt_string(s: &Option<String>) -> (r: Option<String>)
    ensures
        r.deep_view() == s.deep_view(),
{
    match s {
        Some(v) => Some(v.clone()),
        None => None,
    }
}

impl ForwardInfo {
    /// A copy of the record.
    pub fn duplicate(&self) -> (r: ForwardInfo)
        ensures
            r@ == self@,
    {
        ForwardInfo {
            config: self.config.duplicate(),
            status: self.status,
            last_error: copy_opt_string(&self.last_error),
            retry_count: self.retry_count,
        }
    }
}

/// A forward as it is when first started: connecting, no error, no retries.
pub open spec fn fresh_info(c: ForwardConfigView) -> ForwardInfoView {
    ForwardInfoView { config: c, status: ForwardStatus::Connecting, last_error: None, retry_count: 0 }
}

/// Position of the forward with this id.
pub open spec fn position_of(s: Seq<ForwardInfoView>, id: Seq<char>) -> Option<int>
    decreases s.len(),
{
    if s.len() == 0 {
        None
    } else if s[0].config.id == id {
        Some(0)
    } else {
        match position_of(s.drop_first(), id) {
            Some(k) => Some(k + 1),
            None => None,
        }
    }
}

pub proof fn lemma_position_of(s: Seq<ForwardInfoView>, id: Seq<char>)
    ensures
        position_of(s, id) is Some ==> {
            let i = position_of(s, id)->0;
            &&& 0 <= i < s.len()
            &&& s[i].config.id == id
            &&& forall|j: int| 0 <= j < i ==> s[j].config.id != id
        },
        position_of(s, id) is None ==> forall|j: int| 0 <= j < s.len() ==> s[j].config.id != id,
    decreases s.len(),
{
    if s.len() > 0 && s[0].config.id != id {
        lemma_position_of(s.drop_first(), id);
        match position_of(s.drop_first(), id) {
            Some(k) => {
                assert forall|j: int| 0 <= j < k + 1 implies s[j].config.id != id by {
                    if j > 0 {
                        assert(s[j] == s.drop_first()[j - 1]);
                    }
                }
            },
            None => {
                assert forall|j: int| 0 <= j < s.len() implies s[j].config.id != id by {
                    if j > 0 {
                        assert(s[j] == s.drop_first()[j - 1]);
                    }
                }
            },
        }
    }
}

/// No two forwards share an id.
pub open spec fn unique_ids(s: Seq<ForwardInfoView>) -> bool {
    forall|i: int, j: int|
        0 <= i < s.len() && 0 <= j < s.len() && i != j ==> s[i].config.id != s[j].config.id
}

/// The forwards after starting one with this configuration: a forward with
/// the same id is replaced, otherwise the new one is added at the end.
pub open spec fn inserted(s: Seq<ForwardInfoView>, c: ForwardConfigView) -> Seq<ForwardInfoView> {
    match position_of(s, c.id) {
        Some(i) => s.update(i, fresh_info(c)),
        None => s.push(fresh_info(c)),
    }
}

/// The forwards after stopping the one with this id (unchanged if there is none).
pub open spec fn removed(s: Seq<ForwardInfoView>, id: Seq<char>) -> Seq<ForwardInfoView> {
    match position_of(s, id) {
        Some(i) => s.remove(i),
        None => s,
    }
}

/// The forwards after changing the one with this id (unchanged if there is none).
pub open spec fn updated(s: Seq<ForwardInfoView>, id: Seq<char>, e: ForwardInfoView) -> Seq<ForwardInfoView> {
    match position_of(s, id) {
        Some(i) => s.update(i, e),
        None => s,
    }
}

/// The record of the forward with this id.
pub open spec fn info_with_id(s: Seq<ForwardInfoView>, id: Seq<char>) -> Option<ForwardInfoView> {
    match position_of(s, id) {
        Some(i) => Some(s[i]),
        None => None,
    }
}

/// The running forwards of the app, in the order they were started.
pub struct ForwardState {
    entries: Vec<ForwardInfo>,
}

impl View for ForwardState {
    type V = Seq<ForwardInfoView>;

    closed spec fn view(&self) -> Seq<ForwardInfoView> {
        self.entries@.map_values(|e: ForwardInfo| e@)
    }
}

impl ForwardState {
    pub open spec fn wf(&self) -> bool {
        unique_ids(self@)
    }

    /// No forwards.
    pub fn new() -> (r: ForwardState)
        ensures
            r@ == Seq::<ForwardInfoView>::empty(),
            r.wf(),
    {
        let r = ForwardState { entries: Vec::new() };
        proof {
            assert(r@ =~= Seq::<ForwardInfoView>::empty());
        }
        r
    }

    fn find(&self, id: &String) -> (r: Option<usize>)
        ensures
            r matches Some(i) ==> position_of(self@, id@) == Some(i as int) && i < self@.len(),
            r is None ==> position_of(self@, id@) is None,
    {
        proof {
            lemma_position_of(self@, id@);
        }
        let mut i: usize = 0;
        while i < self.entries.len()
            invariant
                i <= self.entries@.len(),
                self@ == self.entries@.map_values(|e: ForwardInfo| e@),
                forall|j: int| 0 <= j < i ==> self@[j].config.id != id@,
            decreases self.entries@.len() - i,
        {
            if self.entries[i].config.id == *id {
                proof {
                    lemma_position_of(self@, id@);
                    assert(self@[i as int].config.id == id@);
                    if position_of(self@, id@) is Some {
                        let k = position_of(self@, id@)->0;
                        if k < i {
                            assert(self@[k].config.id != id@);
                        } else if k > i {
                            assert(self@[i as int].config.id != id@);
                        }
                    }
                }
                return Some(i);
            }
            i = i + 1;
        }
        proof {
            lemma_position_of(self@, id@);
            if position_of(self@, id@) is Some {
                let k = position_of(self@, id@)->0;
                assert(self@[k].config.id == id@);
            }
        }
        None
    }

    /// The forward with this id, if any.
    pub fn info_of(&self, id: &String) -> (r: Option<ForwardInfo>)
        ensures
            match r {
                Some(info) => info_with_id(self@, id@) == Some(info@),
                None => info_with_id(self@, id@) is None,
            },
    {
        match self.find(id) {
            Some(i) => Some(self.entries[i].duplicate()),
            None => None,
        }
    }

    /// Records a newly started forward (connecting, no error, no retries); a
    /// forward with the same id is replaced.
    pub fn insert_forward(&mut self, config: ForwardConfig)
        requires
            old(self).wf(),
        ensures
            final(self)@ == inserted(old(self)@, config@),
            final(self).wf(),
    {
        let ghost c = config@;
        let info = ForwardInfo {
            config,
            status: ForwardStatus::Connecting,
            last_error: None,
            retry_count: 0,
        };
        let ghost old_v = self@;
        proof {
            lemma_position_of(old_v, c.id);
        }
        match self.find(&info.config.id) {
            Some(i) => {
                self.entries.set(i, info);
                proof {
                    assert(self@ =~= old_v.update(i as int, fresh_info(c)));
                }
            },
            None => {
                self.entries.push(info);
                proof {
                    assert(self@ =~= old_v.push(fresh_info(c)));
                }
            },
        }
    }

    /// Replaces the record of the forward with this id; nothing happens if
    /// there is none.
    pub fn update_forward(&mut self, id: &String, info: ForwardInfo)
        requires
            old(self).wf(),
            info@.config.id == id@,
        ensures
            final(self)@ == updated(old(self)@, id@, info@),
            final(self).wf(),
    {
        let ghost old_v = self@;
        let ghost e = info@;
        proof {
            lemma_position_of(old_v, id@);
        }
        match self.find(id) {
            Some(i) => {
                self.entries.set(i, info);
                proof {
                    assert(self@ =~= old_v.update(i as int, e));
                }
            },
            None => {},
        }
    }

    /// Forgets the forward with this id, returning its record.
    pub fn remove_forward(&mut self, id: &String) -> (r: Option<ForwardInfo>)
        requires
            old(self).wf(),
        ensures
            final(self)@ == removed(old(self)@, id@),
            final(self).wf(),
            match r {
                Some(info) => info_with_id(old(self)@, id@) == Some(info@),
                None => info_with_id(old(self)@, id@) is None,
            },
    {
        let ghost old_v = self@;
        match self.find(id) {
            Some(i) => {
                let e = self.entries.remove(i);
                proof {
                    assert(self@ =~= old_v.remove(i as int));
                    assert forall|a: int, b: int|
                        0 <= a < self@.len() && 0 <= b < self@.len() && a != b implies self@[a].config.id
                        != self@[b].config.id by {
                        let a0 = if a < i { a } else { a + 1 };
                        let b0 = if b < i { b } else { b + 1 };
                        assert(self@[a] == old_v[a0]);
                        assert(self@[b] == old_v[b0]);
                    }
                }
                Some(e)
            },
            None => None,
        }
    }

    /// The records of all forwards, in order.
    pub fn infos(&self) -> (r: Vec<ForwardInfo>)
        ensures
            r@.map_values(|e: ForwardInfo| e@) == self@,
    {
        let mut r: Vec<ForwardInfo> = Vec::new();
        let mut i: usize = 0;
        while i < self.entries.len()
            invariant
                i <= self.entries@.len(),
                self@ == self.entries@.map_values(|e: ForwardInfo| e@),
                r@.map_values(|e: ForwardInfo| e@) == self@.take(i as int),
            decreases self.entries@.len() - i,
        {
            let e = self.entries[i].duplicate();
            let ghost before = r@.map_values(|e: ForwardInfo| e@);
            r.push(e);
            proof {
                assert(r@.map_values(|e: ForwardInfo| e@) =~= before.push(e@));
                assert(self@.take(i + 1) =~= self@.take(i as int).push(self@[i as int]));
            }
            i = i + 1;
        }
        proof {
            assert(self@.take(i as int) =~= self@);
        }
        r
    }

    /// The configurations to save, so that the forwards come back on the next launch.
    pub fn persisted_configs(&self) -> (r: Vec<ForwardConfig>)
        ensures
            r@.map_values(|c: ForwardConfig| c@) == self@.map_values(|e: ForwardInfoView| e.config),
    {
        let mut r: Vec<ForwardConfig> = Vec::new();
        let mut i: usize = 0;
        while i < self.entries.len()
            invariant
                i <= self.entries@.len(),
                self@ == self.entries@.map_values(|e: ForwardInfo| e@),
                r@.map_values(|c: ForwardConfig| c@) == self@.take(i as int).map_values(
                    |e: ForwardInfoView| e.config,
                ),
            decreases self.entries@.len() - i,
        {
            let c = self.entries[i].config.duplicate();
            let ghost before = r@.map_values(|c: ForwardConfig| c@);
            r.push(c);
            proof {
                assert(r@.map_values(|c: ForwardConfig| c@) =~= before.push(c@));
                assert(self@.take(i + 1).map_values(|e: ForwardInfoView| e.config) =~= self@.take(
                    i as int,
                ).map_values(|e: ForwardInfoView| e.config).push(self@[i as int].config));
            }
            i = i + 1;
        }
        proof {
            assert(self@.take(i as int) =~= self@);
        }
        r
    }
}


/// Calls `uuid::Uuid::new_v4` and formats the id with `to_string`: 36
/// characters, hyphenated lowercase hex with version digit 4. The random
/// bits are not described.
#[verifier::external_body]
fn new_forward_id() -> (r: String)
    ensures
        r@.len() == 36,
        r@[8] == '-',
        r@[13] == '-',
        r@[14] == '4',
        r@[18] == '-',
        r@[23] == '-',
{
    uuid::Uuid::new_v4().to_string()
}

/// Starts a new forward under a fresh random id: it is recorded as
/// connecting, with no error and no retries, and its record is returned.
pub fn start_forward(
    state: &mut ForwardState,
    alias: String,
    direction: String,
    local_port: u16,
    remote_host: String,
    remote_port: u16,
) -> (r: ForwardInfo)
    requires
        old(state).wf(),
    ensures
        final(state).wf(),
        r@ == fresh_info(r@.config),
        r@.config.alias == alias@,
        r@.config.direction == direction@,
        r@.config.local_port == local_port,
        r@.config.remote_host == remote_host@,
        r@.config.remote_port == remote_port,
        r@.config.id.len() == 36,
        final(state)@ == inserted(old(state)@, r@.config),
{
    let config = ForwardConfig {
        id: new_forward_id(),
        alias,
        direction,
        local_port,
        remote_host,
        remote_port,
    };
    let info = ForwardInfo {
        config: config.duplicate(),
        status: ForwardStatus::Connecting,
        last_error: None,
        retry_count: 0,
    };
    state.insert_forward(config);
    info
}

/// Stops a forward for good: it is forgotten, so that it is neither
/// listed, nor saved, nor reconnected.
pub fn stop_forward(state: &mut ForwardState, id: &String) -> (r: Result<(), String>)
    requires
        old(state).wf(),
    ensures
        final(state).wf(),
        final(state)@ == removed(old(state)@, id@),
        r is Ok <==> info_with_id(old(state)@, id@) is Some,
        r matches Err(e) ==> e@ == "Forward not found"@,
{
    match state.remove_forward(id) {
        Some(_) => Ok(()),
        None => Err("Forward not found".to_owned()),
    }
}

/// The current records of all forwards.
pub fn list_forwards(state: &ForwardState) -> (r: Vec<ForwardInfo>)
    ensures
        r@.map_values(|e: ForwardInfo| e@) == state@,
{
    state.infos()
}

/// How a forward's supervisor may change the table: only that forward's
/// record changes, keeping its configuration and never losing retries, and
/// an absent forward stays absent.
pub open spec fn evolves(old: Seq<ForwardInfoView>, new: Seq<ForwardInfoView>, id: Seq<char>) -> bool {
    &&& unique_ids(new)
    &&& forall|other: Seq<char>| other != id ==> #[trigger] info_with_id(new, other) == info_with_id(old, other)
    &&& match info_with_id(old, id) {
        None => info_with_id(new, id) is None,
        Some(o) => info_with_id(new, id) matches Some(n) && n.config == o.config && n.retry_count >= o.retry_count,
    }
}

/// Supervision steps compose: a run of them evolves the table as one step does.
pub proof fn lemma_evolves_transitive(a: Seq<ForwardInfoView>, b: Seq<ForwardInfoView>, c: Seq<ForwardInfoView>, id: Seq<char>)
    requires
        evolves(a, b, id),
        evolves(b, c, id),
    ensures
        evolves(a, c, id),
{
    assert forall|other: Seq<char>| other != id implies #[trigger] info_with_id(c, other) == info_with_id(a, other) by {
        assert(info_with_id(b, other) == info_with_id(a, other));
    }
}

proof fn lemma_evolves_refl(s: Seq<ForwardInfoView>, id: Seq<char>)
    requires
        unique_ids(s),
    ensures
        evolves(s, s, id),
{
}

proof fn lemma_run_from(states: Seq<Seq<ForwardInfoView>>, id: Seq<char>, i: int, j: int)
    requires
        0 <= i <= j < states.len(),
        unique_ids(states[i]),
        forall|k: int| 0 <= k < states.len() - 1 ==> evolves(#[trigger] states[k], states[k + 1], id),
    ensures
        evolves(states[i], states[j], id),
    decreases j - i,
{
    if i == j {
        lemma_evolves_refl(states[i], id);
    } else {
        lemma_run_from(states, id, i, j - 1);
        assert(evolves(states[j - 1], states[j], id));
        lemma_evolves_transitive(states[i], states[j - 1], states[j], id);
    }
}

/// Over a run of supervision steps of one forward, each table evolves from
/// every earlier one: the forward keeps its configuration, its retry count
/// never goes down, once gone it stays gone, and no other forward changes.
pub proof fn lemma_run_evolves(states: Seq<Seq<ForwardInfoView>>, id: Seq<char>)
    requires
        states.len() > 0,
        unique_ids(states[0]),
        forall|k: int| 0 <= k < states.len() - 1 ==> evolves(#[trigger] states[k], states[k + 1], id),
    ensures
        forall|i: int, j: int| 0 <= i <= j < states.len() ==> evolves(states[i], states[j], id),
{
    assert forall|i: int, j: int| 0 <= i <= j < states.len() implies evolves(states[i], states[j], id) by {
        if i > 0 {
            assert(evolves(states[i - 1], states[i], id));
        }
        lemma_run_from(states, id, i, j);
    }
}

/// Changing the record of a present forward, with its configuration kept
/// and no retries lost, is how a supervisor evolves the table.
pub proof fn lemma_update_evolves(s: Seq<ForwardInfoView>, id: Seq<char>, e: ForwardInfoView)
    requires
        unique_ids(s),
        info_with_id(s, id) matches Some(o) && e.config == o.config && e.retry_count >= o.retry_count,
    ensures
        evolves(s, updated(s, id, e), id),
        info_with_id(updated(s, id, e), id) == Some(e),
{
    let t = updated(s, id, e);
    lemma_position_of(s, id);
    let i = position_of(s, id)->0;
    lemma_position_of(t, id);
    assert(t[i].config.id == id);
    if position_of(t, id) is Some {
        let k = position_of(t, id)->0;
        if k != i {
            assert(s[k].config.id == id);
        }
    }
    assert forall|a: int, b: int| 0 <= a < t.len() && 0 <= b < t.len() && a != b implies t[a].config.id
        != t[b].config.id by {
        assert(s[a].config.id == t[a].config.id);
        assert(s[b].config.id == t[b].config.id);
    }
    assert forall|other: Seq<char>| other != id implies #[trigger] info_with_id(t, other) == info_with_id(s, other) by {
        lemma_position_of(s, other);
        lemma_position_of(t, other);
        if position_of(s, other) is Some {
            let k = position_of(s, other)->0;
            assert(t[k].config.id == other);
            let m = position_of(t, other)->0;
            assert(s[m].config.id == other);
        } else {
            if position_of(t, other) is Some {
                let m = position_of(t, other)->0;
                assert(s[m].config.id == other);
            }
        }
    }
}

/// Starting a forward makes it visible with the fresh record, keeps the ids
/// unique, and leaves every other forward as it was.
pub proof fn lemma_start_then_lookup(s: Seq<ForwardInfoView>, c: ForwardConfigView, other: Seq<char>)
    requires
        unique_ids(s),
    ensures
        unique_ids(inserted(s, c)),
        info_with_id(inserted(s, c), c.id) == Some(fresh_info(c)),
        info_with_id(inserted(s, c), c.id) matches Some(e) && e.config == c && e.status
            == ForwardStatus::Connecting && e.retry_count == 0 && e.last_error is None,
        other != c.id ==> info_with_id(inserted(s, c), other) == info_with_id(s, other),
{
    let t = inserted(s, c);
    lemma_position_of(s, c.id);
    lemma_position_of(s, other);
    lemma_position_of(t, c.id);
    lemma_position_of(t, other);
    match position_of(s, c.id) {
        Some(i) => {
            assert(t[i].config.id == c.id);
            if position_of(t, c.id) is Some {
                let k = position_of(t, c.id)->0;
                if k != i {
                    assert(s[k].config.id == c.id);
                }
            }
            if other != c.id {
                if position_of(s, other) is Some {
                    let k = position_of(s, other)->0;
                    assert(t[k].config.id == other);
                    if position_of(t, other) is Some {
                        let m = position_of(t, other)->0;
                        assert(s[m].config.id == t[m].config.id || m == i);
                    }
                } else {
                    if position_of(t, other) is Some {
                        let m = position_of(t, other)->0;
                        assert(m != i);
                        assert(s[m].config.id == other);
                    }
                }
            }
        },
        None => {
            assert(t[s.len() as int].config.id == c.id);
            if other != c.id {
                if position_of(s, other) is Some {
                    let k = position_of(s, other)->0;
                    assert(t[k].config.id == other);
                } else {
                    if position_of(t, other) is Some {
                        let m = position_of(t, other)->0;
                        assert(m != s.len());
                        assert(s[m].config.id == other);
                    }
                }
            }
        },
    }
}

/// Stopping a forward makes it disappear (so that its supervisor ends at
/// its next step), keeps the ids unique, and leaves every other forward as
/// it was.
pub proof fn lemma_stop_then_lookup(s: Seq<ForwardInfoView>, id: Seq<char>, other: Seq<char>)
    requires
        unique_ids(s),
    ensures
        unique_ids(removed(s, id)),
        info_with_id(removed(s, id), id) is None,
        other != id ==> info_with_id(removed(s, id), other) == info_with_id(s, other),
{
    let t = removed(s, id);
    lemma_position_of(s, id);
    lemma_position_of(s, other);
    lemma_position_of(t, id);
    lemma_position_of(t, other);
    match position_of(s, id) {
        Some(i) => {
            assert forall|a: int, b: int|
                0 <= a < t.len() && 0 <= b < t.len() && a != b implies t[a].config.id
                != t[b].config.id by {
                let a0 = if a < i { a } else { a + 1 };
                let b0 = if b < i { b } else { b + 1 };
                assert(t[a] == s[a0]);
                assert(t[b] == s[b0]);
            }
            if position_of(t, id) is Some {
                let k = position_of(t, id)->0;
                let k0 = if k < i { k } else { k + 1 };
                assert(t[k] == s[k0]);
            }
            if other != id {
                if position_of(s, other) is Some {
                    let k = position_of(s, other)->0;
                    let k1 = if k < i { k } else { k - 1 };
                    assert(t[k1] == s[k]);
                    let m = position_of(t, other)->0;
                    let m0 = if m < i { m } else { m + 1 };
                    assert(t[m] == s[m0]);
                } else {
                    if position_of(t, other) is Some {
                        let m = position_of(t, other)->0;
                        let m0 = if m < i { m } else { m + 1 };
                        assert(t[m] == s[m0]);
                    }
                }
            }
        },
        None => {},
    }
}

} // verus!
