//! Work that needs the host: files, the time and the storage of settings.
//!
//! An operation runs on the replies that the host has given so far. It ends, or
//! it stops at the first request that has no reply yet. The host then performs
//! that request, and the operation runs again with one reply more.

use vstd::prelude::*;

use crate::daily_logic::{ConfigView, DailyPluginConfig};
use crate::date::{moment_reading, read_moment, LocalDateTime};
use crate::text::{concat, trim, trimmed, views};

verus! {

/// A request to the host.
#[derive(Debug)]
pub enum Action {
    /// Whether there is a file at a path.
    FileExists(String),
    /// The text of the file at a path.
    ReadFile(String),
    /// Writes a text to the file at a path.
    WriteFile(String, String),
    /// The paths of the files below a path.
    ListFiles(String),
    /// The local time, as an RFC 3339 text.
    Now,
    /// Keeps settings under a key.
    SaveConfig(String, DailyPluginConfig),
    /// The settings that are kept under a key.
    LoadConfig(String),
}

/// What a request holds.
pub enum Ask {
    Exists(Seq<char>),
    Read(Seq<char>),
    Write(Seq<char>, Seq<char>),
    Files(Seq<char>),
    Now,
    Save(Seq<char>, ConfigView),
    Load(Seq<char>),
}

impl View for Action {
    type V = Ask;

    open spec fn view(&self) -> Ask {
        match self {
            Action::FileExists(path) => Ask::Exists(path@),
            Action::ReadFile(path) => Ask::Read(path@),
            Action::WriteFile(path, content) => Ask::Write(path@, content@),
            Action::ListFiles(prefix) => Ask::Files(prefix@),
            Action::Now => Ask::Now,
            Action::SaveConfig(key, config) => Ask::Save(key@, config@),
            Action::LoadConfig(key) => Ask::Load(key@),
        }
    }
}

/// The reply of the host to a request, or its error.
#[derive(Debug)]
pub enum Reply {
    /// To [`Action::FileExists`].
    Exists(Result<bool, String>),
    /// To [`Action::ReadFile`] and [`Action::Now`].
    Content(Result<String, String>),
    /// To [`Action::WriteFile`] and [`Action::SaveConfig`].
    Done(Result<(), String>),
    /// To [`Action::ListFiles`].
    Files(Result<Vec<String>, String>),
    /// To [`Action::LoadConfig`]: nothing where no settings can be read.
    Config(Option<DailyPluginConfig>),
}

/// What a reply holds.
pub enum Answer {
    Exists(Result<bool, Seq<char>>),
    Content(Result<Seq<char>, Seq<char>>),
    Done(Result<(), Seq<char>>),
    Files(Result<Seq<Seq<char>>, Seq<char>>),
    Config(Option<ConfigView>),
}

impl View for Reply {
    type V = Answer;

    open spec fn view(&self) -> Answer {
        match self {
            Reply::Exists(Ok(b)) => Answer::Exists(Ok(*b)),
            Reply::Exists(Err(e)) => Answer::Exists(Err(e@)),
            Reply::Content(Ok(s)) => Answer::Content(Ok(s@)),
            Reply::Content(Err(e)) => Answer::Content(Err(e@)),
            Reply::Done(Ok(_)) => Answer::Done(Ok(())),
            Reply::Done(Err(e)) => Answer::Done(Err(e@)),
            Reply::Files(Ok(v)) => Answer::Files(Ok(views(v@))),
            Reply::Files(Err(e)) => Answer::Files(Err(e@)),
            Reply::Config(Some(c)) => Answer::Config(Some(c@)),
            Reply::Config(None) => Answer::Config(None),
        }
    }
}

/// The replies so far, and the requests of this run that they answered.
#[derive(Debug)]
pub struct Session {
    pub replies: Vec<Reply>,
    pub asked: Vec<Action>,
}

/// What a session holds.
#[verifier::ext_equal]
pub struct Talk {
    pub replies: Seq<Answer>,
    pub asked: Seq<Ask>,
}

impl View for Session {
    type V = Talk;

    open spec fn view(&self) -> Talk {
        Talk {
            replies: self.replies@.map_values(|r: Reply| r@),
            asked: self.asked@.map_values(|a: Action| a@),
        }
    }
}

impl Talk {
    /// The reply to the next request, if there is one.
    pub open spec fn reply(self) -> Option<Answer> {
        if self.asked.len() < self.replies.len() {
            Some(self.replies[self.asked.len() as int])
        } else {
            None
        }
    }

    /// The session after a request that was answered.
    pub open spec fn noted(self, ask: Ask) -> Talk {
        Talk { replies: self.replies, asked: self.asked.push(ask) }
    }

    /// The session before any request.
    pub open spec fn fresh(self) -> Talk {
        Talk { replies: self.replies, asked: Seq::empty() }
    }
}

/// Why an operation did not end well.
#[derive(Debug)]
pub enum Stop {
    /// It failed, with a message.
    Fail(String),
    /// It waits for the reply to a request.
    Ask(Action),
}

/// How far an operation has come.
pub enum Outcome<T> {
    Got(T),
    Failed(Seq<char>),
    Waiting(Ask),
}

/// The outcome of a result.
pub open spec fn outcome<T>(r: Result<T, Stop>) -> Outcome<T> {
    match r {
        Ok(value) => Outcome::Got(value),
        Err(Stop::Fail(message)) => Outcome::Failed(message@),
        Err(Stop::Ask(action)) => Outcome::Waiting(action@),
    }
}

/// The outcome of a result that is a text.
pub open spec fn text_outcome(r: Result<String, Stop>) -> Outcome<Seq<char>> {
    match r {
        Ok(value) => Outcome::Got(value@),
        Err(Stop::Fail(message)) => Outcome::Failed(message@),
        Err(Stop::Ask(action)) => Outcome::Waiting(action@),
    }
}

/// The outcome of a result that is a list of texts.
pub open spec fn texts_outcome(r: Result<Vec<String>, Stop>) -> Outcome<Seq<Seq<char>>> {
    match r {
        Ok(value) => Outcome::Got(views(value@)),
        Err(Stop::Fail(message)) => Outcome::Failed(message@),
        Err(Stop::Ask(action)) => Outcome::Waiting(action@),
    }
}

/// The same way not to end well, whatever the result would have been.
pub open spec fn stopped<T, U>(o: Outcome<T>) -> Outcome<U> {
    match o {
        Outcome::Got(_) => arbitrary(),
        Outcome::Failed(message) => Outcome::Failed(message),
        Outcome::Waiting(ask) => Outcome::Waiting(ask),
    }
}

// ---------------------------------------------------------------------------
// Requests
// ---------------------------------------------------------------------------

/// Asks whether there is a file.
pub open spec fn exists_asked(s: Talk, path: Seq<char>) -> (Talk, Outcome<bool>) {
    match s.reply() {
        Some(Answer::Exists(Ok(b))) => (s.noted(Ask::Exists(path)), Outcome::Got(b)),
        Some(Answer::Exists(Err(e))) => (s.noted(Ask::Exists(path)), Outcome::Failed(e)),
        _ => (s, Outcome::Waiting(Ask::Exists(path))),
    }
}

/// Asks for the text of a file.
pub open spec fn read_asked(s: Talk, path: Seq<char>) -> (Talk, Outcome<Seq<char>>) {
    match s.reply() {
        Some(Answer::Content(Ok(t))) => (s.noted(Ask::Read(path)), Outcome::Got(t)),
        Some(Answer::Content(Err(e))) => (s.noted(Ask::Read(path)), Outcome::Failed(e)),
        _ => (s, Outcome::Waiting(Ask::Read(path))),
    }
}

/// Asks to write a file.
pub open spec fn write_asked(s: Talk, path: Seq<char>, content: Seq<char>) -> (Talk, Outcome<()>) {
    match s.reply() {
        Some(Answer::Done(Ok(_))) => (s.noted(Ask::Write(path, content)), Outcome::Got(())),
        Some(Answer::Done(Err(e))) => (s.noted(Ask::Write(path, content)), Outcome::Failed(e)),
        _ => (s, Outcome::Waiting(Ask::Write(path, content))),
    }
}

/// Asks for the files below a path.
pub open spec fn files_asked(s: Talk, prefix: Seq<char>) -> (Talk, Outcome<Seq<Seq<char>>>) {
    match s.reply() {
        Some(Answer::Files(Ok(v))) => (s.noted(Ask::Files(prefix)), Outcome::Got(v)),
        Some(Answer::Files(Err(e))) => (s.noted(Ask::Files(prefix)), Outcome::Failed(e)),
        _ => (s, Outcome::Waiting(Ask::Files(prefix))),
    }
}

/// The moment that the host has told, with or without spaces around it.
pub open spec fn told_moment(raw: Seq<char>) -> Outcome<LocalDateTime> {
    match moment_reading(trimmed(raw)) {
        Ok(moment) => Outcome::Got(moment),
        Err(e) => Outcome::Failed("failed to parse host_get_now response: "@ + e),
    }
}

/// Asks for the local time.
pub open spec fn now_asked(s: Talk) -> (Talk, Outcome<LocalDateTime>) {
    match s.reply() {
        Some(Answer::Content(Ok(raw))) => (s.noted(Ask::Now), told_moment(raw)),
        Some(Answer::Content(Err(e))) => (s.noted(Ask::Now), Outcome::Failed(e)),
        _ => (s, Outcome::Waiting(Ask::Now)),
    }
}

/// Asks to keep settings.
pub open spec fn save_asked(s: Talk, key: Seq<char>, config: ConfigView) -> (Talk, Outcome<()>) {
    match s.reply() {
        Some(Answer::Done(Ok(_))) => (s.noted(Ask::Save(key, config)), Outcome::Got(())),
        Some(Answer::Done(Err(e))) => (s.noted(Ask::Save(key, config)), Outcome::Failed(e)),
        _ => (s, Outcome::Waiting(Ask::Save(key, config))),
    }
}

/// Asks for the settings that are kept; the default ones where there are none.
pub open spec fn load_asked(s: Talk, key: Seq<char>) -> (Talk, Outcome<ConfigView>) {
    match s.reply() {
        Some(Answer::Config(Some(c))) => (s.noted(Ask::Load(key)), Outcome::Got(c)),
        Some(Answer::Config(None)) => (s.noted(Ask::Load(key)), Outcome::Got(default_config())),
        _ => (s, Outcome::Waiting(Ask::Load(key))),
    }
}

/// The settings where none are kept.
pub open spec fn default_config() -> ConfigView {
    ConfigView { entry_folder: None, entry_template: None, migrated_legacy_config: false }
}

impl Session {
    /// A session without replies.
    pub fn new() -> (r: Session)
        ensures
            r@.replies == Seq::<Answer>::empty(),
            r@.asked == Seq::<Ask>::empty(),
    {
        let r = Session { replies: Vec::new(), asked: Vec::new() };
        assert(r@.replies =~= Seq::<Answer>::empty());
        assert(r@.asked =~= Seq::<Ask>::empty());
        r
    }

    /// Starts the operation over, with the same replies.
    pub fn restart(&mut self)
        ensures
            final(self)@ == old(self)@.fresh(),
            final(self).replies == old(self).replies,
    {
        self.asked = Vec::new();
        assert(self@.asked =~= Seq::<Ask>::empty());
        assert(self@.replies =~= old(self)@.replies);
    }

    /// Takes in the reply to the request that was waited for.
    pub fn answer(&mut self, reply: Reply)
        ensures
            final(self)@.replies == old(self)@.replies.push(reply@),
            final(self)@.asked == old(self)@.asked,
    {
        self.replies.push(reply);
        assert(self@.replies =~= old(self)@.replies.push(reply@));
        assert(self@.asked =~= old(self)@.asked);
    }

    fn note(&mut self, action: Action)
        ensures
            final(self)@ == old(self)@.noted(action@),
    {
        self.asked.push(action);
        assert(self@.asked =~= old(self)@.asked.push(action@));
        assert(self@.replies =~= old(self)@.replies);
    }

    pub fn file_exists(&mut self, path: &str) -> (r: Result<bool, Stop>)
        ensures
            (final(self)@, outcome(r)) == exists_asked(old(self)@, path@),
    {
        let next: usize = self.asked.len();
        if next < self.replies.len() {
            assert(self@.replies[next as int] == self.replies@[next as int]@);
            match &self.replies[next] {
                Reply::Exists(Ok(b)) => {
                    let found = *b;
                    self.note(Action::FileExists(path.to_owned()));
                    return Ok(found);
                },
                Reply::Exists(Err(e)) => {
                    let message = e.clone();
                    self.note(Action::FileExists(path.to_owned()));
                    return Err(Stop::Fail(message));
                },
                _ => {},
            }
        }
        Err(Stop::Ask(Action::FileExists(path.to_owned())))
    }

    pub fn read_file(&mut self, path: &str) -> (r: Result<String, Stop>)
        ensures
            (final(self)@, text_outcome(r)) == read_asked(old(self)@, path@),
    {
        let next: usize = self.asked.len();
        if next < self.replies.len() {
            assert(self@.replies[next as int] == self.replies@[next as int]@);
            match &self.replies[next] {
                Reply::Content(Ok(s)) => {
                    let content = s.clone();
                    self.note(Action::ReadFile(path.to_owned()));
                    return Ok(content);
                },
                Reply::Content(Err(e)) => {
                    let message = e.clone();
                    self.note(Action::ReadFile(path.to_owned()));
                    return Err(Stop::Fail(message));
                },
                _ => {},
            }
        }
        Err(Stop::Ask(Action::ReadFile(path.to_owned())))
    }

    pub fn write_file(&mut self, path: &str, content: &str) -> (r: Result<(), Stop>)
        ensures
            (final(self)@, outcome(r)) == write_asked(old(self)@, path@, content@),
    {
        let next: usize = self.asked.len();
        if next < self.replies.len() {
            assert(self@.replies[next as int] == self.replies@[next as int]@);
            match &self.replies[next] {
                Reply::Done(Ok(_)) => {
                    self.note(Action::WriteFile(path.to_owned(), content.to_owned()));
                    return Ok(());
                },
                Reply::Done(Err(e)) => {
                    let message = e.clone();
                    self.note(Action::WriteFile(path.to_owned(), content.to_owned()));
                    return Err(Stop::Fail(message));
                },
                _ => {},
            }
        }
        Err(Stop::Ask(Action::WriteFile(path.to_owned(), content.to_owned())))
    }

    pub fn list_files(&mut self, prefix: &str) -> (r: Result<Vec<String>, Stop>)
        ensures
            (final(self)@, texts_outcome(r)) == files_asked(old(self)@, prefix@),
    {
        let next: usize = self.asked.len();
        if next < self.replies.len() {
            assert(self@.replies[next as int] == self.replies@[next as int]@);
            match &self.replies[next] {
                Reply::Files(Ok(v)) => {
                    let files = copied(v);
                    self.note(Action::ListFiles(prefix.to_owned()));
                    return Ok(files);
                },
                Reply::Files(Err(e)) => {
                    let message = e.clone();
                    self.note(Action::ListFiles(prefix.to_owned()));
                    return Err(Stop::Fail(message));
                },
                _ => {},
            }
        }
        Err(Stop::Ask(Action::ListFiles(prefix.to_owned())))
    }

    /// The local time.
    pub fn now(&mut self) -> (r: Result<LocalDateTime, Stop>)
        ensures
            (final(self)@, outcome(r)) == now_asked(old(self)@),
            r matches Ok(moment) ==> moment.valid(),
    {
        let next: usize = self.asked.len();
        if next < self.replies.len() {
            assert(self@.replies[next as int] == self.replies@[next as int]@);
            match &self.replies[next] {
                Reply::Content(Ok(s)) => {
                    let raw = trim(s.as_str());
                    self.note(Action::Now);
                    return match read_moment(raw.as_str()) {
                        Ok(moment) => Ok(moment),
                        Err(e) => Err(
                            Stop::Fail(
                                concat("failed to parse host_get_now response: ", e.as_str()),
                            ),
                        ),
                    };
                },
                Reply::Content(Err(e)) => {
                    let message = e.clone();
                    self.note(Action::Now);
                    return Err(Stop::Fail(message));
                },
                _ => {},
            }
        }
        Err(Stop::Ask(Action::Now))
    }

    pub fn save_config(&mut self, key: &str, config: &DailyPluginConfig) -> (r: Result<(), Stop>)
        ensures
            (final(self)@, outcome(r)) == save_asked(old(self)@, key@, config@),
    {
        let next: usize = self.asked.len();
        if next < self.replies.len() {
            assert(self@.replies[next as int] == self.replies@[next as int]@);
            match &self.replies[next] {
                Reply::Done(Ok(_)) => {
                    self.note(Action::SaveConfig(key.to_owned(), config.clone()));
                    return Ok(());
                },
                Reply::Done(Err(e)) => {
                    let message = e.clone();
                    self.note(Action::SaveConfig(key.to_owned(), config.clone()));
                    return Err(Stop::Fail(message));
                },
                _ => {},
            }
        }
        Err(Stop::Ask(Action::SaveConfig(key.to_owned(), config.clone())))
    }

    pub fn load_config(&mut self, key: &str) -> (r: Result<DailyPluginConfig, Stop>)
        ensures
            (final(self)@, config_outcome(r)) == load_asked(old(self)@, key@),
    {
        let next: usize = self.asked.len();
        if next < self.replies.len() {
            assert(self@.replies[next as int] == self.replies@[next as int]@);
            match &self.replies[next] {
                Reply::Config(Some(c)) => {
                    let config = c.clone();
                    self.note(Action::LoadConfig(key.to_owned()));
                    return Ok(config);
                },
                Reply::Config(None) => {
                    self.note(Action::LoadConfig(key.to_owned()));
                    return Ok(DailyPluginConfig::default());
                },
                _ => {},
            }
        }
        Err(Stop::Ask(Action::LoadConfig(key.to_owned())))
    }
}

/// The outcome of a result that is settings.
pub open spec fn config_outcome(r: Result<DailyPluginConfig, Stop>) -> Outcome<ConfigView> {
    match r {
        Ok(value) => Outcome::Got(value@),
        Err(Stop::Fail(message)) => Outcome::Failed(message@),
        Err(Stop::Ask(action)) => Outcome::Waiting(action@),
    }
}

/// The same texts in a list of one's own.
fn copied(v: &Vec<String>) -> (r: Vec<String>)
    ensures
        views(r@) == views(v@),
{
    let mut out: Vec<String> = Vec::new();
    let mut i: usize = 0;
    while i < v.len()
        invariant
            i <= v@.len(),
            out@.len() == i,
            forall|k: int| 0 <= k < i ==> (#[trigger] out@[k])@ == v@[k]@,
        decreases v@.len() - i,
    {
        out.push(v[i].clone());
        i = i + 1;
    }
    assert(views(out@) =~= views(v@));
    out
}

/// A request takes the reply that stands next for it: a value is the result, an error
/// fails the operation, and both count as asked. Without a reply the operation waits
/// for just this request.
pub proof fn law_requests(s: Talk, path: Seq<char>, content: Seq<char>, config: ConfigView)
    ensures
        s.reply() is None ==> {
            &&& exists_asked(s, path) == (s, Outcome::<bool>::Waiting(Ask::Exists(path)))
            &&& read_asked(s, path) == (s, Outcome::<Seq<char>>::Waiting(Ask::Read(path)))
            &&& write_asked(s, path, content) == (
                s,
                Outcome::<()>::Waiting(Ask::Write(path, content)),
            )
            &&& files_asked(s, path) == (s, Outcome::<Seq<Seq<char>>>::Waiting(Ask::Files(path)))
            &&& now_asked(s) == (s, Outcome::<LocalDateTime>::Waiting(Ask::Now))
            &&& save_asked(s, path, config) == (s, Outcome::<()>::Waiting(Ask::Save(path, config)))
            &&& load_asked(s, path) == (s, Outcome::<ConfigView>::Waiting(Ask::Load(path)))
        },
        s.reply() matches Some(Answer::Exists(r)) ==> exists_asked(s, path) == (
            s.noted(Ask::Exists(path)),
            if r is Ok {
                Outcome::Got(r->Ok_0)
            } else {
                Outcome::Failed(r->Err_0)
            },
        ),
        s.reply() matches Some(Answer::Content(r)) ==> read_asked(s, path) == (
            s.noted(Ask::Read(path)),
            if r is Ok {
                Outcome::Got(r->Ok_0)
            } else {
                Outcome::Failed(r->Err_0)
            },
        ),
        s.reply() matches Some(Answer::Done(r)) ==> write_asked(s, path, content) == (
            s.noted(Ask::Write(path, content)),
            if r is Ok {
                Outcome::Got(())
            } else {
                Outcome::Failed(r->Err_0)
            },
        ) && save_asked(s, path, config) == (
            s.noted(Ask::Save(path, config)),
            if r is Ok {
                Outcome::Got(())
            } else {
                Outcome::Failed(r->Err_0)
            },
        ),
        s.reply() matches Some(Answer::Files(r)) ==> files_asked(s, path) == (
            s.noted(Ask::Files(path)),
            if r is Ok {
                Outcome::Got(r->Ok_0)
            } else {
                Outcome::Failed(r->Err_0)
            },
        ),
        s.reply() matches Some(Answer::Config(r)) ==> load_asked(s, path) == (
            s.noted(Ask::Load(path)),
            Outcome::Got(
                if r is Some {
                    r->0
                } else {
                    ConfigView {
                        entry_folder: None,
                        entry_template: None,
                        migrated_legacy_config: false,
                    }
                },
            ),
        ),
{
}

/// The time is what the host tells, with or without spaces around it; a text that is no
/// moment fails with the reason.
pub proof fn law_time_told(s: Talk, raw: Seq<char>)
    requires
        s.reply() == Some(Answer::Content(Ok(raw))),
    ensures
        now_asked(s) == (
            s.noted(Ask::Now),
            match moment_reading(trimmed(raw)) {
                Ok(moment) => Outcome::Got(moment),
                Err(e) => Outcome::Failed("failed to parse host_get_now response: "@ + e),
            },
        ),
{
}

} // verus!
