use vstd::prelude::*;

verus! {

/// Outcome of probing one full identifier.
#[derive(PartialEq, Eq, Structural, Clone, Copy, Debug)]
pub enum VideoEvent {
    Success,
    NotEmbeddable,
    NotFound,
}

/// Metadata returned for a successful probe.
#[derive(Debug)]
pub struct VideoData {
    pub title: String,
    pub author_name: String,
    pub author_url: String,
}

/// The outcome of probing one full identifier.
#[derive(Debug)]
pub struct Video {
    pub event: VideoEvent,
    /// The identifier that was probed.
    pub id: Vec<char>,
    /// Present for `Success` only.
    pub video_data: Option<VideoData>,
}

/// An admitted user: numeric id, display name and shared secret.
#[derive(Debug)]
pub struct User {
    pub id: u8,
    pub name: String,
    pub secret: String,
}

impl User {
    /// A copy of this user.
    pub fn duplicate(&self) -> (r: User)
        ensures
            r.id == self.id,
            r.name@ == self.name@,
            r.secret@ == self.secret@,
    {
        User { id: self.id, name: self.name.clone(), secret: self.secret.clone() }
    }
}

/// A prefix held as a run's persisted value.
#[derive(Debug)]
pub struct ServerStateInner {
    pub inner: Vec<char>,
}

/// Whether a user joined or left.
#[derive(PartialEq, Eq, Structural, Clone, Copy, Debug)]
pub enum UserEventType {
    Join,
    Leave,
}

/// A user joining or leaving, with the session concerned.
pub struct UserEvent {
    pub event: UserEventType,
    pub user: crate::session::Session,
}

/// Events passed from the sessions to the coordinator's result handling.
pub enum ServerEvent {
    ResultsAwaiting(Vec<char>),
    ResultsReceived(Vec<char>),
    PositiveResultsReceived(Vec<Video>),
}

} // verus!
