use vstd::prelude::*;

verus! {

/// One administrative state as the upstream catalog reports it.
#[derive(Clone, Debug)]
pub struct State {
    pub state_id: i16,
    pub state_name: String,
    pub state_name_l: Option<String>,
}

/// The full state list from one upstream fetch, with the server-declared
/// time-to-live (in hours) of that response.
#[derive(Clone, Debug)]
pub struct States {
    pub states: Vec<State>,
    pub ttl: i16,
}

/// One district as the upstream catalog reports it. The owning state
/// identifier is absent as fetched and is stamped in during the merge.
#[derive(Clone, Debug)]
pub struct District {
    pub district_id: i16,
    pub district_name: String,
    pub district_name_l: Option<String>,
    pub state_id: Option<i16>,
}

/// The district list of one state from one upstream fetch, with the
/// server-declared time-to-live (in hours) of that response.
#[derive(Clone, Debug)]
pub struct Districts {
    pub districts: Vec<District>,
    pub ttl: i16,
}

/// One immutable, fully merged snapshot of the reference dataset.
/// `expires_at` is an absolute UTC instant in seconds since the Unix epoch.
#[derive(Clone, Debug)]
pub struct StatesAndDistricts {
    pub states: Vec<State>,
    pub districts: Vec<District>,
    pub expires_at: i64,
}

/// Which of the two lookup keys could not be resolved in the snapshot.
#[derive(Clone, Copy, Debug, PartialEq, Eq, Structural)]
pub enum NotFoundError {
    State,
    District,
}

/// What loading the persisted snapshot produced: a decoded snapshot, no
/// file at all, or a file that could not be decoded.
#[derive(Clone, Debug)]
pub enum CacheLoad {
    Loaded(StatesAndDistricts),
    Missing,
    Corrupt,
}

/// What a lookup should do next: serve the given snapshot as it stands, or
/// perform a full refresh against the upstream service.
#[derive(Clone, Debug)]
pub enum CacheAction {
    Serve(StatesAndDistricts),
    Refresh,
}

/// The cache policy: a loaded snapshot is served only while the clock has
/// not reached its expiry; a missing or undecodable file, or an expired
/// snapshot, demands a refresh.
pub open spec fn cache_step_spec(loaded: CacheLoad, now: i64) -> CacheAction {
    match loaded {
        CacheLoad::Loaded(sd) => if sd.expires_at > now {
            CacheAction::Serve(sd)
        } else {
            CacheAction::Refresh
        },
        CacheLoad::Missing => CacheAction::Refresh,
        CacheLoad::Corrupt => CacheAction::Refresh,
    }
}

/// Decides how a lookup proceeds from the outcome of loading the persisted
/// snapshot at clock reading `now`.
pub fn cache_step(loaded: CacheLoad, now: i64) -> (r: CacheAction)
    ensures
        r == cache_step_spec(loaded, now),
{
    match loaded {
        CacheLoad::Loaded(sd) => if sd.expires_at > now {
            CacheAction::Serve(sd)
        } else {
            CacheAction::Refresh
        },
        CacheLoad::Missing => CacheAction::Refresh,
        CacheLoad::Corrupt => CacheAction::Refresh,
    }
}

/// A snapshot loaded while still fresh is served back unchanged, with no
/// refresh requested.
pub proof fn lemma_cache_freshness(sd: StatesAndDistricts, now: i64)
    requires
        sd.expires_at > now,
    ensures
        cache_step_spec(CacheLoad::Loaded(sd), now) == CacheAction::Serve(sd),
{
}

/// A snapshot whose expiry has been reached is never served: the policy
/// falls through to a full refresh.
pub proof fn lemma_cache_expiry_fallback(sd: StatesAndDistricts, now: i64)
    requires
        sd.expires_at <= now,
    ensures
        cache_step_spec(CacheLoad::Loaded(sd), now) == CacheAction::Refresh,
{
}

/// District `d` with its owning-state identifier stamped to `sid`; every
/// other field is kept as fetched.
pub open spec fn stamped(d: District, sid: i16) -> District {
    District {
        district_id: d.district_id,
        district_name: d.district_name,
        district_name_l: d.district_name_l,
        state_id: Some(sid),
    }
}

/// Every district of one per-state fetch, stamped with that state's
/// identifier.
pub open spec fn stamp_all(ds: Seq<District>, sid: i16) -> Seq<District> {
    ds.map_values(|d: District| stamped(d, sid))
}

/// The TTLs contributed by the per-state fetches that succeeded, in state
/// order; a failed fetch contributes nothing.
pub open spec fn district_ttls(outcomes: Seq<Option<Districts>>) -> Seq<i16>
    decreases outcomes.len(),
{
    if outcomes.len() == 0 {
        Seq::empty()
    } else {
        district_ttls(outcomes.drop_last()) + (match outcomes.last() {
            Some(ds) => seq![ds.ttl],
            None => Seq::<i16>::empty(),
        })
    }
}

/// Every TTL a refresh cycle collects: the state-list fetch's own TTL
/// followed by the TTL of every successful per-state fetch.
pub open spec fn collected_ttls(state_ttl: i16, outcomes: Seq<Option<Districts>>) -> Seq<i16> {
    seq![state_ttl] + district_ttls(outcomes)
}

/// The least element of a non-empty TTL sequence.
pub open spec fn seq_min(s: Seq<i16>) -> int
    recommends
        s.len() > 0,
    decreases s.len(),
{
    if s.len() <= 1 {
        s[0] as int
    } else {
        let prefix = seq_min(s.drop_last());
        if s.last() as int <= prefix {
            s.last() as int
        } else {
            prefix
        }
    }
}

/// The expiry a refresh computes: the clock reading at construction plus
/// the shortest collected TTL, converted from hours to seconds.
pub open spec fn merged_expiry(state_ttl: i16, outcomes: Seq<Option<Districts>>, now: i64) -> int {
    now + 3600 * seq_min(collected_ttls(state_ttl, outcomes))
}

/// The merged district collection: for each state, in order, the districts
/// of its successful fetch, stamped with that state's identifier; a failed
/// fetch contributes nothing.
pub open spec fn merged_districts(states: Seq<State>, outcomes: Seq<Option<Districts>>) -> Seq<District>
    recommends
        states.len() == outcomes.len(),
    decreases outcomes.len(),
{
    if outcomes.len() == 0 {
        Seq::empty()
    } else {
        merged_districts(states.drop_last(), outcomes.drop_last()) + (match outcomes.last() {
            Some(ds) => stamp_all(ds.districts@, states.last().state_id),
            None => Seq::<District>::empty(),
        })
    }
}

/// The identifiers of the states whose district fetch failed, in state
/// order.
pub open spec fn failed_state_ids(states: Seq<State>, outcomes: Seq<Option<Districts>>) -> Seq<i16>
    recommends
        states.len() == outcomes.len(),
    decreases outcomes.len(),
{
    if outcomes.len() == 0 {
        Seq::empty()
    } else {
        failed_state_ids(states.drop_last(), outcomes.drop_last()) + (match outcomes.last() {
            Some(_) => Seq::<i16>::empty(),
            None => seq![states.last().state_id],
        })
    }
}

/// Whether some state in the list carries identifier `sid`.
pub open spec fn has_state_id(states: Seq<State>, sid: i16) -> bool {
    exists|i: int| 0 <= i < states.len() && states[i].state_id == sid
}

/// Whether district `d` has its owning-state identifier populated with the
/// identifier of one of the given states.
pub open spec fn district_owner_among(d: District, states: Seq<State>) -> bool {
    match d.state_id {
        Some(sid) => has_state_id(states, sid),
        None => false,
    }
}

/// The least collected TTL never lies outside the range of the values it
/// was drawn from.
proof fn lemma_seq_min_in_range(s: Seq<i16>)
    requires
        s.len() > 0,
    ensures
        i16::MIN <= seq_min(s) <= i16::MAX,
    decreases s.len(),
{
    if s.len() > 1 {
        lemma_seq_min_in_range(s.drop_last());
    }
}

/// A lower bound shared by every collected TTL is a lower bound of their
/// minimum.
proof fn lemma_seq_min_lower_bound(s: Seq<i16>, b: int)
    requires
        s.len() > 0,
        forall|i: int| 0 <= i < s.len() ==> b <= #[trigger] s[i] as int,
    ensures
        b <= seq_min(s),
    decreases s.len(),
{
    if s.len() > 1 {
        lemma_seq_min_lower_bound(s.drop_last(), b);
    }
}

/// Completeness of the merge: every merged district has its owning-state
/// identifier populated, and with the identifier of one of the fetched
/// states, however many per-state fetches failed.
pub proof fn lemma_merged_districts_complete(states: Seq<State>, outcomes: Seq<Option<Districts>>)
    requires
        states.len() == outcomes.len(),
    ensures
        forall|j: int|
            0 <= j < merged_districts(states, outcomes).len() ==> district_owner_among(
                #[trigger] merged_districts(states, outcomes)[j],
                states,
            ),
    decreases outcomes.len(),
{
    if outcomes.len() > 0 {
        lemma_merged_districts_complete(states.drop_last(), outcomes.drop_last());
        let head = merged_districts(states.drop_last(), outcomes.drop_last());
        assert forall|j: int| 0 <= j < merged_districts(states, outcomes).len() implies district_owner_among(
            #[trigger] merged_districts(states, outcomes)[j],
            states,
        ) by {
            if j < head.len() {
                assert(district_owner_among(head[j], states.drop_last()));
                let sid = head[j].state_id->0;
                let w = choose|i: int| 0 <= i < states.drop_last().len()
                    && states.drop_last()[i].state_id == sid;
                assert(states[w].state_id == sid);
            } else {
                match outcomes.last() {
                    Some(ds) => {
                        let sid = states.last().state_id;
                        assert(merged_districts(states, outcomes)[j] == stamp_all(
                            ds.districts@,
                            sid,
                        )[j - head.len()]);
                        assert(states[states.len() - 1].state_id == sid);
                    },
                    None => {},
                }
            }
        }
    }
}

/// The first state whose display name equals `name`, if any.
pub open spec fn find_state(states: Seq<State>, name: Seq<char>) -> Option<State>
    decreases states.len(),
{
    if states.len() == 0 {
        None
    } else if states[0].state_name@ == name {
        Some(states[0])
    } else {
        find_state(states.drop_first(), name)
    }
}

/// The first district owned by state `sid` whose display name equals
/// `name`, if any. A district whose owning-state identifier was never
/// stamped belongs to no state and so never matches.
pub open spec fn find_district(districts: Seq<District>, sid: i16, name: Seq<char>) -> Option<District>
    decreases districts.len(),
{
    if districts.len() == 0 {
        None
    } else if districts[0].state_id == Some(sid) && districts[0].district_name@ == name {
        Some(districts[0])
    } else {
        find_district(districts.drop_first(), sid, name)
    }
}

/// What resolving a (state name, district name) pair over a snapshot
/// returns: the identifier of the first matching district of the first
/// matching state, or the first key that could not be found.
pub open spec fn resolve_spec(
    sd: StatesAndDistricts,
    state: Seq<char>,
    district: Seq<char>,
) -> Result<i16, NotFoundError> {
    match find_state(sd.states@, state) {
        None => Err(NotFoundError::State),
        Some(s) => match find_district(sd.districts@, s.state_id, district) {
            None => Err(NotFoundError::District),
            Some(d) => Ok(d.district_id),
        },
    }
}

/// Idempotence of the lookup: resolving is a pure function of the snapshot
/// and the two names, so repeated calls over an unchanged snapshot with
/// identical arguments yield identical results.
pub proof fn lemma_resolve_idempotent(
    sd1: StatesAndDistricts,
    sd2: StatesAndDistricts,
    state: Seq<char>,
    district: Seq<char>,
)
    requires
        sd1 == sd2,
    ensures
        resolve_spec(sd1, state, district) == resolve_spec(sd2, state, district),
{
}

impl StatesAndDistricts {
    /// Assembles a snapshot from already merged parts.
    pub fn new(states: Vec<State>, districts: Vec<District>, expires_at: i64) -> (r: Self)
        ensures
            r.states@ == states@,
            r.districts@ == districts@,
            r.expires_at == expires_at,
    {
        Self { states, districts, expires_at }
    }

    /// Merges one refresh cycle's fetch results into a snapshot.
    ///
    /// `outcomes[i]` is the result of the district fetch for `states.states[i]`:
    /// its districts and TTL on success, absent on failure. The merge stamps
    /// every fetched district with its owning state's identifier, keeps the
    /// districts in state order, and sets the expiry to `now` plus the
    /// shortest collected TTL (hours), so the snapshot is never trusted
    /// longer than the least any upstream response authorized. Rather than
    /// dropping failures silently, the identifiers of the states whose fetch
    /// failed are reported alongside the snapshot.
    pub fn merge(states: States, outcomes: Vec<Option<Districts>>, now: i64) -> (r: (Self, Vec<i16>))
        requires
            outcomes@.len() == states.states@.len(),
            i64::MIN + 118_000_000 <= now <= i64::MAX - 118_000_000,
        ensures
            r.0.states@ == states.states@,
            r.0.districts@ == merged_districts(states.states@, outcomes@),
            r.0.expires_at == merged_expiry(states.ttl, outcomes@, now),
            r.1@ == failed_state_ids(states.states@, outcomes@),
            forall|j: int|
                0 <= j < r.0.districts@.len() ==> district_owner_among(
                    #[trigger] r.0.districts@[j],
                    states.states@,
                ),
    {
        let ghost st = states.states@;
        let ghost outs = outcomes@;
        let mut districts: Vec<District> = Vec::new();
        let mut failed: Vec<i16> = Vec::new();
        let mut min_ttl: i16 = states.ttl;
        let n = outcomes.len();
        let mut i: usize = 0;
        proof {
            assert(outs.take(0) =~= Seq::<Option<Districts>>::empty());
            assert(st.take(0) =~= Seq::<State>::empty());
            assert(collected_ttls(states.ttl, outs.take(0)) =~= seq![states.ttl]);
        }
        while i < n
            invariant
                0 <= i <= n,
                n == outs.len(),
                n == st.len(),
                outcomes@ == outs,
                states.states@ == st,
                districts@ == merged_districts(st.take(i as int), outs.take(i as int)),
                failed@ == failed_state_ids(st.take(i as int), outs.take(i as int)),
                min_ttl as int == seq_min(collected_ttls(states.ttl, outs.take(i as int))),
            decreases n - i,
        {
            let ghost c = collected_ttls(states.ttl, outs.take(i as int));
            proof {
                assert(outs.take(i as int + 1).drop_last() =~= outs.take(i as int));
                assert(st.take(i as int + 1).drop_last() =~= st.take(i as int));
                assert(outs.take(i as int + 1).last() == outs[i as int]);
                assert(st.take(i as int + 1).last() == st[i as int]);
            }
            match &outcomes[i] {
                Some(ds) => {
                    let sid = states.states[i].state_id;
                    if ds.ttl < min_ttl {
                        min_ttl = ds.ttl;
                    }
                    proof {
                        assert(district_ttls(outs.take(i as int + 1)) =~= district_ttls(
                            outs.take(i as int),
                        ) + seq![ds.ttl]);
                        assert(collected_ttls(states.ttl, outs.take(i as int + 1)) =~= c.push(
                            ds.ttl,
                        ));
                        assert(c.push(ds.ttl).drop_last() =~= c);
                        assert(c.push(ds.ttl).last() == ds.ttl);
                        assert(seq_min(c.push(ds.ttl)) == if ds.ttl as int <= seq_min(c) {
                            ds.ttl as int
                        } else {
                            seq_min(c)
                        });
                    }
                    let m = ds.districts.len();
                    let mut j: usize = 0;
                    proof {
                        assert(ds.districts@.take(0) =~= Seq::<District>::empty());
                        assert(stamp_all(ds.districts@.take(0), sid) =~= Seq::<District>::empty());
                        assert(districts@ =~= merged_districts(st.take(i as int), outs.take(i as int))
                            + stamp_all(ds.districts@.take(0), sid));
                    }
                    while j < m
                        invariant
                            0 <= j <= m,
                            0 <= i < n,
                            n == outs.len(),
                            n == st.len(),
                            outcomes@ == outs,
                            states.states@ == st,
                            outs[i as int] matches Some(dsx) && dsx.districts@.len() == m
                                && dsx.districts@ == ds.districts@,
                            sid == st[i as int].state_id,
                            districts@ == merged_districts(st.take(i as int), outs.take(i as int))
                                + stamp_all(ds.districts@.take(j as int), sid),
                        decreases m - j,
                    {
                        let d = &ds.districts[j];
                        let name_l: Option<String> = match &d.district_name_l {
                            Some(x) => Some(x.clone()),
                            None => None,
                        };
                        districts.push(District {
                            district_id: d.district_id,
                            district_name: d.district_name.clone(),
                            district_name_l: name_l,
                            state_id: Some(sid),
                        });
                        proof {
                            assert(stamp_all(ds.districts@.take(j as int + 1), sid) =~= stamp_all(
                                ds.districts@.take(j as int),
                                sid,
                            ).push(stamped(ds.districts@[j as int], sid)));
                        }
                        j += 1;
                    }
                    proof {
                        assert(ds.districts@.take(m as int) =~= ds.districts@);
                        assert(districts@ =~= merged_districts(
                            st.take(i as int + 1),
                            outs.take(i as int + 1),
                        ));
                        assert(failed@ =~= failed_state_ids(
                            st.take(i as int + 1),
                            outs.take(i as int + 1),
                        ));
                    }
                },
                None => {
                    failed.push(states.states[i].state_id);
                    proof {
                        assert(district_ttls(outs.take(i as int + 1)) =~= district_ttls(
                            outs.take(i as int),
                        ));
                        assert(collected_ttls(states.ttl, outs.take(i as int + 1)) =~= c);
                        assert(districts@ =~= merged_districts(
                            st.take(i as int + 1),
                            outs.take(i as int + 1),
                        ));
                        assert(failed@ =~= failed_state_ids(
                            st.take(i as int + 1),
                            outs.take(i as int + 1),
                        ));
                    }
                },
            }
            i += 1;
        }
        proof {
            assert(outs.take(n as int) =~= outs);
            assert(st.take(n as int) =~= st);
            lemma_seq_min_in_range(collected_ttls(states.ttl, outs));
            lemma_merged_districts_complete(st, outs);
        }
        let expires_at: i64 = now + 3600i64 * (min_ttl as i64);
        (Self { states: states.states, districts, expires_at }, failed)
    }

    /// Whether this snapshot may still be served at clock reading `now`.
    pub fn is_fresh(&self, now: i64) -> (r: bool)
        ensures
            r == (self.expires_at > now),
    {
        self.expires_at > now
    }

    /// Resolves a state display name and a district display name to the
    /// district's identifier: the first state with that name is chosen,
    /// then the first of its districts with that name. Fails naming the
    /// state when no state matches, and naming the district when the state
    /// matched but none of its districts did.
    pub fn district_id(&self, state: &str, district: &str) -> (r: Result<i16, NotFoundError>)
        ensures
            r == resolve_spec(*self, state@, district@),
    {
        let state_key: String = state.to_owned();
        let district_key: String = district.to_owned();
        let n = self.states.len();
        let mut i: usize = 0;
        proof {
            assert(self.states@.skip(0) =~= self.states@);
        }
        while i < n
            invariant
                0 <= i <= n,
                n == self.states@.len(),
                state_key@ == state@,
                district_key@ == district@,
                find_state(self.states@, state@) == find_state(
                    self.states@.skip(i as int),
                    state@,
                ),
            decreases n - i,
        {
            if self.states[i].state_name.eq(&state_key) {
                proof {
                    assert(self.states@.skip(i as int)[0] == self.states@[i as int]);
                    assert(find_state(self.states@, state@) == Some(self.states@[i as int]));
                }
                let sid = self.states[i].state_id;
                let m = self.districts.len();
                let mut j: usize = 0;
                proof {
                    assert(self.districts@.skip(0) =~= self.districts@);
                }
                while j < m
                    invariant
                        0 <= j <= m,
                        m == self.districts@.len(),
                        district_key@ == district@,
                        find_state(self.states@, state@) matches Some(s) && s.state_id == sid,
                        find_district(self.districts@, sid, district@) == find_district(
                            self.districts@.skip(j as int),
                            sid,
                            district@,
                        ),
                    decreases m - j,
                {
                    let d = &self.districts[j];
                    proof {
                        assert(self.districts@.skip(j as int)[0] == self.districts@[j as int]);
                    }
                    let owner_matches: bool = match d.state_id {
                        Some(s) => s == sid,
                        None => false,
                    };
                    if owner_matches && d.district_name.eq(&district_key) {
                        proof {
                            assert(find_district(self.districts@, sid, district@) == Some(
                                self.districts@[j as int],
                            ));
                        }
                        return Ok(d.district_id);
                    }
                    proof {
                        assert(self.districts@.skip(j as int).drop_first() =~= self.districts@.skip(
                            j as int + 1,
                        ));
                    }
                    j += 1;
                }
                proof {
                    assert(self.districts@.skip(m as int) =~= Seq::<District>::empty());
                }
                return Err(NotFoundError::District);
            }
            proof {
                assert(self.states@.skip(i as int)[0] == self.states@[i as int]);
                assert(self.states@.skip(i as int).drop_first() =~= self.states@.skip(
                    i as int + 1,
                ));
            }
            i += 1;
        }
        proof {
            assert(self.states@.skip(n as int) =~= Seq::<State>::empty());
        }
        Err(NotFoundError::State)
    }
}

/// Monotone expiry across a refresh: when an expired snapshot is replaced
/// and every collected TTL grants at least one hour, the new snapshot's
/// expiry lies strictly after the old one.
pub proof fn lemma_refresh_advances_expiry(
    old_expires_at: i64,
    state_ttl: i16,
    outcomes: Seq<Option<Districts>>,
    now: i64,
)
    requires
        old_expires_at <= now,
        1 <= state_ttl,
        forall|i: int|
            0 <= i < outcomes.len() ==> (match #[trigger] outcomes[i] {
                Some(ds) => 1 <= ds.ttl,
                None => true,
            }),
    ensures
        merged_expiry(state_ttl, outcomes, now) > old_expires_at,
{
    lemma_district_ttls_lower_bound(outcomes, 1);
    let c = collected_ttls(state_ttl, outcomes);
    assert(forall|i: int| 0 <= i < c.len() ==> 1 <= #[trigger] c[i] as int);
    lemma_seq_min_lower_bound(c, 1);
}

/// A lower bound shared by every successful fetch's TTL is shared by every
/// TTL the merge collects from them.
proof fn lemma_district_ttls_lower_bound(outcomes: Seq<Option<Districts>>, b: int)
    requires
        forall|i: int|
            0 <= i < outcomes.len() ==> (match #[trigger] outcomes[i] {
                Some(ds) => b <= ds.ttl,
                None => true,
            }),
    ensures
        forall|i: int| 0 <= i < district_ttls(outcomes).len() ==> b <= #[trigger] district_ttls(
            outcomes,
        )[i] as int,
    decreases outcomes.len(),
{
    if outcomes.len() > 0 {
        lemma_district_ttls_lower_bound(outcomes.drop_last(), b);
        let head = district_ttls(outcomes.drop_last());
        assert forall|i: int|
            0 <= i < district_ttls(outcomes).len() implies b <= #[trigger] district_ttls(
            outcomes,
        )[i] as int by {
            if i < head.len() {
                assert(district_ttls(outcomes)[i] == head[i]);
            } else {
                assert(outcomes.last() == outcomes[outcomes.len() - 1]);
                match outcomes.last() {
                    Some(ds) => {
                        assert(district_ttls(outcomes)[i] == ds.ttl);
                    },
                    None => {},
                }
            }
        }
    }
}

} // verus!
