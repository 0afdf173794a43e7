use vstd::prelude::*;
use vstd::string::StringExecFns;

use crate::dispatch::{
    after_ack, after_dispatch, dispatch_choice, submit_check, Coordinator, DispatchError,
    DispatchState,
};
use crate::prefix::{word_of, BASE_LEN};
use crate::protocol::{Data, ErrorCode, IdentifyData, OperationCode, Payload, TestingResultData};
use crate::types::User;

verus! {

/// The only client version the coordinator admits.
pub const ALLOWED_CLIENT_VERSION: &'static str = "0.6.1";

/// The `User-Agent` a worker must present when it opens its connection.
pub const WORKER_USER_AGENT: &'static str = "bruty";

/// Whether a connection upgrade with this `User-Agent` is accepted.
pub fn admits_user_agent(user_agent: &str) -> (r: bool)
    ensures
        r == (user_agent@ == WORKER_USER_AGENT@),
{
    let n = user_agent.unicode_len();
    let expected = WORKER_USER_AGENT;
    if n != expected.unicode_len() {
        return false;
    }
    let mut i: usize = 0;
    while i < n
        invariant
            i <= n,
            n == user_agent@.len(),
            n == expected@.len(),
            expected@ == WORKER_USER_AGENT@,
            forall|j: int| 0 <= j < i ==> user_agent@[j] == expected@[j],
        decreases n - i,
    {
        if user_agent.get_char(i) != expected.get_char(i) {
            return false;
        }
        i = i + 1;
    }
    assert(user_agent@ =~= expected@);
    true
}

/// Per-connection record of the session layer.
pub struct Session {
    pub authenticated: bool,
    pub heartbeat_received: bool,
    pub user: User,
    /// The coordinator's slot for this session.
    pub slot: usize,
}

/// Whether a client of version `v` is admitted.
pub open spec fn supported_version(v: Seq<char>) -> bool {
    v == ALLOWED_CLIENT_VERSION@
}

/// `k` is the first entry of `users` with id `id`.
pub open spec fn first_user(users: Seq<User>, id: u8, k: int) -> bool {
    &&& 0 <= k < users.len()
    &&& users[k].id == id
    &&& forall|j: int| 0 <= j < k ==> users[j].id != id
}

/// The entry of the admission table for user `id`.
pub open spec fn find_user(users: Seq<User>, id: u8) -> Option<int> {
    if exists|k: int| first_user(users, id, k) {
        Some(choose|k: int| first_user(users, id, k))
    } else {
        None
    }
}

/// The outcome of an identify message: the admitted user's entry, or why admission failed.
pub open spec fn identify_check(users: Seq<User>, data: IdentifyData) -> Result<int, ErrorCode> {
    if !supported_version(data.client_version@) {
        Err(ErrorCode::UnsupportedClientVersion)
    } else {
        match find_user(users, data.id) {
            None => Err(ErrorCode::AuthenticationFailed),
            Some(k) => if users[k].secret@ == data.secret@ {
                Ok(k)
            } else {
                Err(ErrorCode::AuthenticationFailed)
            },
        }
    }
}

/// `s` is the admitted user `u`.
pub open spec fn same_user(s: User, u: User) -> bool {
    s.id == u.id && s.name@ == u.name@ && s.secret@ == u.secret@
}

proof fn lemma_first_user_unique(users: Seq<User>, id: u8, a: int, b: int)
    requires
        first_user(users, id, a),
        first_user(users, id, b),
    ensures
        a == b,
{
    if a < b {
        assert(users[a].id != id);
    } else if b < a {
        assert(users[b].id != id);
    }
}

/// Position of the first entry of `users` with id `id`.
fn lookup_user(users: &Vec<User>, id: u8) -> (r: Option<usize>)
    ensures
        match find_user(users@, id) {
            Some(k) => r matches Some(i) && i as int == k,
            None => r is None,
        },
{
    let mut i: usize = 0;
    while i < users.len()
        invariant
            i <= users.len(),
            forall|j: int| 0 <= j < i ==> users@[j].id != id,
        decreases users.len() - i,
    {
        if users[i].id == id {
            proof {
                assert(first_user(users@, id, i as int));
                let k = choose|k: int| first_user(users@, id, k);
                lemma_first_user_unique(users@, id, k, i as int);
            }
            return Some(i);
        }
        i = i + 1;
    }
    assert(!exists|k: int| first_user(users@, id, k));
    None
}

impl Session {
    /// A session that has just connected and holds coordinator slot `slot`.
    pub fn new(slot: usize) -> (r: Session)
        ensures
            !r.authenticated,
            !r.heartbeat_received,
            r.slot == slot,
    {
        Session {
            authenticated: false,
            heartbeat_received: false,
            user: User { id: 0, name: String::from_str("unknown"), secret: String::new() },
            slot,
        }
    }
}

/// Admits the session when the client version is supported and the user's secret matches the
/// admission table.
fn admit_session(session: &mut Session, users: &Vec<User>, data: &IdentifyData) -> (r: Result<
    (),
    ErrorCode,
>)
    ensures
        match identify_check(users@, *data) {
            Ok(k) => {
                &&& r is Ok
                &&& final(session).authenticated
                &&& same_user(final(session).user, users@[k])
                &&& final(session).heartbeat_received == old(session).heartbeat_received
                &&& final(session).slot == old(session).slot
            },
            Err(e) => r == Err::<(), ErrorCode>(e) && *final(session) == *old(session),
        },
{
    let allowed = String::from_str(ALLOWED_CLIENT_VERSION);
    if !data.client_version.eq(&allowed) {
        return Err(ErrorCode::UnsupportedClientVersion);
    }
    match lookup_user(users, data.id) {
        None => Err(ErrorCode::AuthenticationFailed),
        Some(k) => {
            if users[k].secret.eq(&data.secret) {
                session.authenticated = true;
                session.user = users[k].duplicate();
                Ok(())
            } else {
                Err(ErrorCode::AuthenticationFailed)
            }
        },
    }
}

/// The periodic heartbeat check: a session that sent no heartbeat since the last tick times
/// out; otherwise the flag is cleared for the next period.
pub fn on_tick(session: &mut Session) -> (r: Result<(), ErrorCode>)
    ensures
        old(session).heartbeat_received ==> r is Ok && !final(session).heartbeat_received,
        !old(session).heartbeat_received ==> r == Err::<(), ErrorCode>(ErrorCode::SessionTimeout)
            && *final(session) == *old(session),
        final(session).authenticated == old(session).authenticated,
        final(session).slot == old(session).slot,
{
    if !session.heartbeat_received {
        return Err(ErrorCode::SessionTimeout);
    }
    session.heartbeat_received = false;
    Ok(())
}

/// Fails with `NotAuthenticated` unless the session has been admitted.
pub fn check_authenticated(session: &Session) -> (r: Result<(), ErrorCode>)
    ensures
        r is Ok <==> session.authenticated,
        r is Err ==> r == Err::<(), ErrorCode>(ErrorCode::NotAuthenticated),
{
    if session.authenticated {
        Ok(())
    } else {
        Err(ErrorCode::NotAuthenticated)
    }
}

/// What the connection does after an inbound message.
#[derive(Debug)]
pub enum SessionAction {
    /// Nothing to send.
    Continue,
    /// Send this base prefix to the worker.
    Dispatch(Vec<char>),
    /// Send `InvalidSession` with this code, then close the connection.
    Close(ErrorCode),
}

/// What an identify message does: a second identify, or a refused one, closes the session and
/// changes nothing; an admitted session records its user and is handed its first base prefix.
pub open spec fn identify_outcome(
    c0: DispatchState,
    c1: DispatchState,
    s0: Session,
    s1: Session,
    users: Seq<User>,
    d: IdentifyData,
    r: SessionAction,
) -> bool {
    if s0.authenticated {
        r == SessionAction::Close(ErrorCode::UnexpectedOP) && c1 == c0 && s1 == s0
    } else {
        match identify_check(users, d) {
            Err(e) => r == SessionAction::Close(e) && c1 == c0 && s1 == s0,
            Ok(k) => {
                &&& s1.authenticated
                &&& same_user(s1.user, users[k])
                &&& s1.heartbeat_received == s0.heartbeat_received
                &&& s1.slot == s0.slot
                &&& c1 == after_dispatch(c0, s0.slot as int)
                &&& dispatch_action(dispatch_choice(c0, s0.slot as int), r)
            },
        }
    }
}

/// What a result submission does: an admitted session that echoes the prefix it awaits has it
/// acknowledged and is handed its next prefix; anything else closes the session and changes
/// nothing.
pub open spec fn testing_result_outcome(
    c0: DispatchState,
    c1: DispatchState,
    s: Session,
    id: Seq<char>,
    r: SessionAction,
) -> bool {
    if !s.authenticated {
        r == SessionAction::Close(ErrorCode::NotAuthenticated) && c1 == c0
    } else {
        match submit_check(c0, s.slot as int, id) {
            Err(e) => r == SessionAction::Close(e) && c1 == c0,
            Ok(p) => {
                let mid = after_ack(c0, s.slot as int, p);
                &&& c1 == after_dispatch(mid, s.slot as int)
                &&& dispatch_action(dispatch_choice(mid, s.slot as int), r)
            },
        }
    }
}

/// Hands the session its next base prefix, if any is left.
pub fn test_request(coordinator: &mut Coordinator, session: &Session) -> (r: SessionAction)
    requires
        old(coordinator).wf(),
        session.slot < old(coordinator)@.slots.len(),
        old(coordinator)@.slots[session.slot as int].open,
    ensures
        final(coordinator).wf(),
        final(coordinator)@ == after_dispatch(old(coordinator)@, session.slot as int),
        dispatch_action(dispatch_choice(old(coordinator)@, session.slot as int), r),
{
    match coordinator.request_next(session.slot) {
        Ok(p) => SessionAction::Dispatch(p),
        Err(_) => SessionAction::Continue,
    }
}

/// Handles an identify message: admits the session when its client version is supported and
/// its secret matches the admission table, then hands it its first base prefix (a prefix
/// returned by a closed session comes first). A second identify, or a refused one, closes the
/// session.
pub fn identify(
    coordinator: &mut Coordinator,
    session: &mut Session,
    users: &Vec<User>,
    data: &IdentifyData,
) -> (r: SessionAction)
    requires
        old(coordinator).wf(),
        old(session).slot < old(coordinator)@.slots.len(),
        old(coordinator)@.slots[old(session).slot as int].open,
    ensures
        final(coordinator).wf(),
        identify_outcome(
            old(coordinator)@,
            final(coordinator)@,
            *old(session),
            *final(session),
            users@,
            *data,
            r,
        ),
{
    if session.authenticated {
        return SessionAction::Close(ErrorCode::UnexpectedOP);
    }
    match admit_session(session, users, data) {
        Err(e) => SessionAction::Close(e),
        Ok(()) => test_request(coordinator, session),
    }
}

/// Handles the results a session submits: an admitted session that echoes the prefix it awaits
/// has it acknowledged and gets its next prefix; anything else closes the session.
pub fn testing_result(
    coordinator: &mut Coordinator,
    session: &Session,
    data: &TestingResultData,
) -> (r: SessionAction)
    requires
        old(coordinator).wf(),
        session.slot < old(coordinator)@.slots.len(),
        old(coordinator)@.slots[session.slot as int].open,
    ensures
        final(coordinator).wf(),
        testing_result_outcome(old(coordinator)@, final(coordinator)@, *session, data.id@, r),
{
    if check_authenticated(session).is_err() {
        return SessionAction::Close(ErrorCode::NotAuthenticated);
    }
    match coordinator.submit_result(session.slot, &data.id) {
        Err(e) => SessionAction::Close(e),
        Ok(Some(p)) => SessionAction::Dispatch(p),
        Ok(None) => SessionAction::Continue,
    }
}

/// The action that dispatching to a session yields.
pub open spec fn dispatch_action(choice: Result<int, DispatchError>, r: SessionAction) -> bool {
    match choice {
        Ok(p) => r matches SessionAction::Dispatch(v) && v@ == word_of(p, BASE_LEN as nat),
        Err(_) => r is Continue,
    }
}

/// Handles one decoded inbound message of an active connection. The operation code decides:
/// a heartbeat sets the flag; an identify or a result submission is handled when its data is of
/// that kind, and closes the session with `DecodeError` otherwise; an operation the coordinator
/// only sends closes the session with `UnexpectedOP`.
pub fn handle_payload(
    coordinator: &mut Coordinator,
    session: &mut Session,
    users: &Vec<User>,
    payload: &Payload,
) -> (r: SessionAction)
    requires
        old(coordinator).wf(),
        old(session).slot < old(coordinator)@.slots.len(),
        old(coordinator)@.slots[old(session).slot as int].open,
    ensures
        final(coordinator).wf(),
        match payload.op_code {
            OperationCode::Heartbeat => {
                &&& r is Continue
                &&& final(session).heartbeat_received
                &&& final(session).authenticated == old(session).authenticated
                &&& final(session).user == old(session).user
                &&& final(session).slot == old(session).slot
                &&& final(coordinator)@ == old(coordinator)@
            },
            OperationCode::Identify => match payload.data {
                Data::Identify(d) => identify_outcome(
                    old(coordinator)@,
                    final(coordinator)@,
                    *old(session),
                    *final(session),
                    users@,
                    d,
                    r,
                ),
                _ => {
                    &&& r == SessionAction::Close(ErrorCode::DecodeError)
                    &&& final(coordinator)@ == old(coordinator)@
                    &&& *final(session) == *old(session)
                },
            },
            OperationCode::TestingResult => {
                &&& *final(session) == *old(session)
                &&& match payload.data {
                    Data::TestingResult(d) => testing_result_outcome(
                        old(coordinator)@,
                        final(coordinator)@,
                        *old(session),
                        d.id@,
                        r,
                    ),
                    _ => {
                        &&& final(coordinator)@ == old(coordinator)@
                        &&& r == SessionAction::Close(
                            if old(session).authenticated {
                                ErrorCode::DecodeError
                            } else {
                                ErrorCode::NotAuthenticated
                            },
                        )
                    },
                }
            },
            _ => {
                &&& r == SessionAction::Close(ErrorCode::UnexpectedOP)
                &&& final(coordinator)@ == old(coordinator)@
                &&& *final(session) == *old(session)
            },
        },
{
    match payload.op_code {
        OperationCode::Heartbeat => {
            session.heartbeat_received = true;
            SessionAction::Continue
        },
        OperationCode::Identify => match &payload.data {
            Data::Identify(d) => identify(coordinator, session, users, d),
            _ => SessionAction::Close(ErrorCode::DecodeError),
        },
        OperationCode::TestingResult => {
            if check_authenticated(session).is_err() {
                return SessionAction::Close(ErrorCode::NotAuthenticated);
            }
            match &payload.data {
                Data::TestingResult(d) => testing_result(coordinator, session, d),
                _ => SessionAction::Close(ErrorCode::DecodeError),
            }
        },
        OperationCode::TestRequestData | OperationCode::InvalidSession => SessionAction::Close(
            ErrorCode::UnexpectedOP,
        ),
    }
}

} // verus!
