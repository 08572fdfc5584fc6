//! The chat itself: the draft, the log, and the commands.
//!
//! Nothing here touches a socket or a sound device. Operations change the state
//! and return the [`Action`]s to be carried out.

use crate::audio::Cue;
use crate::engine::{bye, effects_of, hello, EffectView, UiMsg, UiMsgView};
use crate::presence::{names_are_ordered_and_complete, sorted_names, PeerView, Peers};
use crate::protocol::{
    decode_inverts_encode, parse_envelope, Envelope, EnvelopeView, Payload, PayloadView, MAGIC,
};
use crate::text::{
    after_word, ascii_lowered, blank, concat2, concat3, decimal, digits, first_word,
    is_word, join, joined, lemma_split, lemma_trimmed_padding, lower, lowered, same, split_word,
    starts_with_char, to_lower, trim, trimmed, views, white_space,
};
use crate::voice::{opt_view, Voice, VoiceView};
use vstd::prelude::*;
use vstd::string::*;

verus! {

/// A line of the log. Lines of the system are by "*".
#[derive(Debug)]
pub struct ChatLine {
    pub who: String,
    pub body: String,
    pub mine: bool,
}

#[verifier::ext_equal]
pub struct LineView {
    pub who: Seq<char>,
    pub body: Seq<char>,
    pub mine: bool,
}

impl View for ChatLine {
    type V = LineView;

    open spec fn view(&self) -> LineView {
        LineView { who: self.who@, body: self.body@, mine: self.mine }
    }
}

/// Something to be carried out.
#[derive(Debug)]
pub enum Action {
    /// Send an envelope to the group.
    Send(Envelope),
    /// Play a notification sound.
    Play(Cue),
    /// Switch the microphone and report back by `mic_switched`.
    SwitchMic(bool),
}

#[verifier::ext_equal]
pub enum ActionView {
    Send(EnvelopeView),
    Play(Cue),
    SwitchMic(bool),
}

impl View for Action {
    type V = ActionView;

    open spec fn view(&self) -> ActionView {
        match *self {
            Action::Send(env) => ActionView::Send(env@),
            Action::Play(cue) => ActionView::Play(cue),
            Action::SwitchMic(on) => ActionView::SwitchMic(on),
        }
    }
}

pub open spec fn action_views(actions: Seq<Action>) -> Seq<ActionView> {
    actions.map_values(|a: Action| a@)
}

pub open spec fn envelope(peer_id: u64, payload: PayloadView) -> EnvelopeView {
    EnvelopeView { magic: MAGIC, peer_id, payload }
}

#[verifier::ext_equal]
pub struct ChatView {
    pub peer_id: u64,
    pub name: Seq<char>,
    /// What is being typed.
    pub draft: Seq<char>,
    pub log: Seq<LineView>,
    pub scroll_to_bottom: bool,
    pub quit: bool,
    pub compose_focus: bool,
    /// The state of the audio devices; none if there is no audio output.
    pub voice: Option<VoiceView>,
    /// What last went wrong with them.
    pub voice_err: Option<Seq<char>>,
    pub input_devices: Seq<Seq<char>>,
    pub output_devices: Seq<Seq<char>>,
}

/// How `/mic` is to be understood: on, off, toggle, or not at all.
pub open spec fn mic_wish(arg: Seq<char>, voice: Option<VoiceView>) -> Option<bool> {
    if arg == "on"@ || arg == "1"@ || arg == "true"@ {
        Some(true)
    } else if arg == "off"@ || arg == "0"@ || arg == "false"@ {
        Some(false)
    } else if arg.len() == 0 {
        match voice {
            Some(v) => Some(!v.mic_on),
            None => None,
        }
    } else {
        None
    }
}

/// What went wrong, if anything did.
pub open spec fn failure<T>(opened: Result<T, String>) -> Option<Seq<char>> {
    match opened {
        Ok(_) => None,
        Err(e) => Some(e@),
    }
}

/// What was opened, if nothing went wrong.
pub open spec fn success<T>(opened: Result<T, String>) -> Option<T> {
    match opened {
        Ok(v) => Some(v),
        Err(_) => None,
    }
}

impl ChatView {
    /// One more line in the log, scrolled to.
    pub open spec fn logged(self, who: Seq<char>, body: Seq<char>, mine: bool) -> ChatView {
        ChatView {
            log: self.log.push(LineView { who, body, mine }),
            scroll_to_bottom: true,
            ..self
        }
    }

    /// One more line of the system.
    pub open spec fn noted(self, body: Seq<char>) -> ChatView {
        self.logged("*"@, body, false)
    }

    /// A text line goes to everybody, and into the log.
    pub open spec fn broadcast(self, body: Seq<char>) -> (ChatView, Seq<ActionView>) {
        (
            self.logged(self.name, body, true),
            seq![
                ActionView::Send(
                    envelope(self.peer_id, PayloadView::Text { name: self.name, body }),
                ),
                ActionView::Play(Cue::Message),
            ],
        )
    }

    pub open spec fn rename(self, arg: Seq<char>) -> (ChatView, Seq<ActionView>) {
        if arg.len() == 0 {
            (self.noted("usage: /name <new name>"@), Seq::empty())
        } else {
            (
                (ChatView { name: arg, ..self }).noted(self.name + " is now known as "@ + arg),
                seq![ActionView::Send(envelope(self.peer_id, PayloadView::Hello { name: arg }))],
            )
        }
    }

    pub open spec fn emote(self, arg: Seq<char>) -> (ChatView, Seq<ActionView>) {
        if arg.len() == 0 {
            (self.noted("usage: /me <action>"@), Seq::empty())
        } else {
            (
                self.noted(self.name + " "@ + arg),
                seq![
                    ActionView::Send(
                        envelope(
                            self.peer_id,
                            PayloadView::Emote { name: self.name, action: arg },
                        ),
                    ),
                ],
            )
        }
    }

    pub open spec fn mic(self, arg: Seq<char>) -> (ChatView, Seq<ActionView>) {
        match mic_wish(arg, self.voice) {
            Some(on) => if self.voice is Some {
                (self, seq![ActionView::SwitchMic(on)])
            } else {
                (self.noted("voice unavailable"@), Seq::empty())
            },
            None => (self.noted("usage: /mic [on|off]"@), Seq::empty()),
        }
    }

    pub open spec fn list_peers(self, peers: Seq<PeerView>) -> ChatView {
        let names = sorted_names(peers);
        if names.len() == 0 {
            self.noted("no other peers on the group"@)
        } else {
            self.noted(digits(names.len()) + " peer(s): "@ + joined(names, ", "@))
        }
    }

    /// What a command does, from its name in lower case, its argument, and the
    /// argument in lower case.
    pub open spec fn run(
        self,
        word: Seq<char>,
        arg: Seq<char>,
        arg_lower: Seq<char>,
        peers: Seq<PeerView>,
    ) -> (ChatView, Seq<ActionView>) {
        if word == "name"@ || word == "nick"@ {
            self.rename(arg)
        } else if word == "me"@ {
            self.emote(arg)
        } else if word == "mic"@ {
            self.mic(arg_lower)
        } else if word == "peers"@ {
            (self.list_peers(peers), Seq::empty())
        } else if word == "clear"@ {
            (ChatView { log: Seq::empty(), ..self }, Seq::empty())
        } else if word == "quit"@ || word == "exit"@ {
            (ChatView { quit: true, ..self }, Seq::empty())
        } else if word == "help"@ || word == "?"@ {
            (
                self.noted(
                    "commands: /name <n>, /me <action>, /mic [on|off], /peers, /clear, /quit, /help"@,
                ),
                Seq::empty(),
            )
        } else {
            (self.noted("unknown command: /"@ + word + "  (try /help)"@), Seq::empty())
        }
    }

    /// What a command line does, without its slash: the command up to the first
    /// white space, its argument behind it. `low` puts a text in lower case.
    pub open spec fn command(
        self,
        line: Seq<char>,
        peers: Seq<PeerView>,
        low: spec_fn(Seq<char>) -> Seq<char>,
    ) -> (ChatView, Seq<ActionView>) {
        let arg = trimmed(after_word(line));
        self.run(low(first_word(line)), arg, low(arg), peers)
    }

    /// What saying something does. What starts with one slash is a command; what
    /// starts with two is sent without the first.
    pub open spec fn said(
        self,
        body: Seq<char>,
        peers: Seq<PeerView>,
        low: spec_fn(Seq<char>) -> Seq<char>,
    ) -> (ChatView, Seq<ActionView>) {
        if !starts_with_char(body, '/') {
            self.broadcast(body)
        } else if starts_with_char(body.skip(1), '/') {
            self.broadcast(body.skip(1))
        } else {
            self.command(body.skip(1), peers, low)
        }
    }

    /// What sending the draft does: it is said without the white space around
    /// it, unless there is nothing else.
    pub open spec fn sent(self, peers: Seq<PeerView>, low: spec_fn(Seq<char>) -> Seq<char>) -> (
        ChatView,
        Seq<ActionView>,
    ) {
        let body = trimmed(self.draft);
        if body.len() == 0 {
            (self, Seq::empty())
        } else {
            (ChatView { draft: Seq::empty(), ..self }).said(body, peers, low)
        }
    }

    /// The microphone was switched on behalf of a command; `failure` says what went
    /// wrong in opening a capture stream, if anything did.
    pub open spec fn mic_reported(self, on: bool, failure: Option<Seq<char>>) -> ChatView {
        match self.voice {
            Some(v) => {
                let switched = ChatView { voice: Some(v.after_mic(on, failure is None)), ..self };
                if v.must_open(on) && failure is Some {
                    switched.noted("mic error: "@ + failure->0)
                } else if on {
                    switched.noted("microphone on"@)
                } else {
                    switched.noted("microphone off"@)
                }
            },
            None => self,
        }
    }

    /// The microphone was switched by the button.
    pub open spec fn mic_set(self, on: bool, failure: Option<Seq<char>>) -> ChatView {
        match self.voice {
            Some(v) => ChatView {
                voice: Some(v.after_mic(on, failure is None)),
                voice_err: if v.must_open(on) && failure is Some {
                    failure
                } else {
                    self.voice_err
                },
                ..self
            },
            None => self,
        }
    }

    /// A microphone was picked.
    pub open spec fn input_set(self, name: Option<Seq<char>>, failure: Option<Seq<char>>) -> ChatView {
        match self.voice {
            Some(v) => ChatView {
                voice: Some(v.after_input(name, failure is None)),
                voice_err: if v.mic_on && failure is Some {
                    failure
                } else {
                    self.voice_err
                },
                ..self
            },
            None => self,
        }
    }

    /// Speakers were picked; `rate` is their sample rate, if they could be opened.
    pub open spec fn output_set(
        self,
        name: Option<Seq<char>>,
        rate: Option<u32>,
        failure: Option<Seq<char>>,
    ) -> ChatView {
        match self.voice {
            Some(v) => ChatView {
                voice: Some(v.after_output(name, rate)),
                voice_err: if rate is None {
                    failure
                } else {
                    self.voice_err
                },
                ..self
            },
            None => self,
        }
    }

    /// The line that a message of the engine becomes.
    pub open spec fn told(self, msg: UiMsgView) -> ChatView {
        match msg {
            UiMsgView::Joined(name) => self.noted(name + " joined"@),
            UiMsgView::Left(name) => self.noted(name + " left"@),
            UiMsgView::Text { who, body } => self.logged(who, body, false),
            UiMsgView::Emote { name, action } => self.noted(name + " "@ + action),
        }
    }
}

/// A chat with nothing in it. `rate` is the sample rate of the speakers, if they
/// could be opened, and `failure` what went wrong if not.
pub open spec fn started(
    peer_id: u64,
    name: Seq<char>,
    rate: Option<u32>,
    failure: Option<Seq<char>>,
    input_devices: Seq<Seq<char>>,
    output_devices: Seq<Seq<char>>,
) -> ChatView {
    ChatView {
        peer_id,
        name,
        draft: Seq::empty(),
        log: Seq::empty(),
        scroll_to_bottom: false,
        quit: false,
        compose_focus: false,
        voice: match rate {
            Some(out_rate) => Some(
                VoiceView { input: None, output: None, mic_on: false, capturing: false, out_rate },
            ),
            None => None,
        },
        voice_err: failure,
        input_devices,
        output_devices,
    }
}

/// The goodbye to send before the window closes, if it is to.
pub open spec fn last_words(chat: ChatView) -> Option<EnvelopeView> {
    if chat.quit {
        Some(envelope(chat.peer_id, PayloadView::Bye { name: chat.name }))
    } else {
        None
    }
}

/// The compose bar asks for the draft to be sent.
pub open spec fn submits(clicked: bool, lost_focus: bool, enter: bool) -> bool {
    clicked || (lost_focus && enter)
}

/// The compose bar is to get the focus back.
pub open spec fn refocuses(lost_focus: bool, enter: bool) -> bool {
    lost_focus && enter
}

/// The state behind the window.
pub struct ChatApp {
    peer_id: u64,
    name: String,
    draft: String,
    log: Vec<ChatLine>,
    scroll_to_bottom: bool,
    quit: bool,
    compose_focus: bool,
    voice: Option<Voice>,
    voice_err: Option<String>,
    input_devices: Vec<String>,
    output_devices: Vec<String>,
}

impl View for ChatApp {
    type V = ChatView;

    closed spec fn view(&self) -> ChatView {
        ChatView {
            peer_id: self.peer_id,
            name: self.name@,
            draft: self.draft@,
            log: self.log@.map_values(|l: ChatLine| l@),
            scroll_to_bottom: self.scroll_to_bottom,
            quit: self.quit,
            compose_focus: self.compose_focus,
            voice: match self.voice {
                Some(v) => Some(v@),
                None => None,
            },
            voice_err: opt_view(self.voice_err),
            input_devices: views(self.input_devices@),
            output_devices: views(self.output_devices@),
        }
    }
}

impl ChatApp {
    /// A chat with nothing in it. `voice` is how opening the speakers went: their
    /// sample rate, or what went wrong.
    pub fn new(
        peer_id: u64,
        name: String,
        voice: Result<u32, String>,
        input_devices: Vec<String>,
        output_devices: Vec<String>,
    ) -> (r: Self)
        ensures
            r@ == started(
                peer_id,
                name@,
                success(voice),
                failure(voice),
                views(input_devices@),
                views(output_devices@),
            ),
    {
        let (voice, voice_err) = match voice {
            Ok(rate) => (Some(Voice::new(rate)), None),
            Err(e) => (None, Some(e)),
        };
        let r = ChatApp {
            peer_id,
            name,
            draft: String::new(),
            log: Vec::new(),
            scroll_to_bottom: false,
            quit: false,
            compose_focus: false,
            voice,
            voice_err,
            input_devices,
            output_devices,
        };
        assert(r@.log =~= Seq::<LineView>::empty());
        r
    }

    fn push_line(&mut self, who: String, body: String, mine: bool)
        ensures
            final(self)@ == old(self)@.logged(who@, body@, mine),
    {
        let line = ChatLine { who, body, mine };
        self.log.push(line);
        self.scroll_to_bottom = true;
        assert(self@ =~= old(self)@.logged(line.who@, line.body@, mine)) by {
            assert(self@.log =~= old(self)@.log.push(line@));
        }
    }

    /// Adds a line of the system, which is not sent to anybody.
    pub fn sys(&mut self, msg: &str)
        ensures
            final(self)@ == old(self)@.noted(msg@),
    {
        self.push_line("*".to_owned(), msg.to_owned(), false);
    }

    /// Sends a text line to everybody.
    pub fn broadcast_text(&mut self, body: &str) -> (r: Vec<Action>)
        ensures
            (final(self)@, action_views(r@)) == old(self)@.broadcast(body@),
    {
        let mut r: Vec<Action> = Vec::new();
        r.push(
            Action::Send(
                Envelope::new(
                    self.peer_id,
                    Payload::Text { name: self.name.clone(), body: body.to_owned() },
                ),
            ),
        );
        r.push(Action::Play(Cue::Message));
        self.push_line(self.name.clone(), body.to_owned(), true);
        assert(action_views(r@) =~= old(self)@.broadcast(body@).1);
        r
    }

    fn run_rename(&mut self, arg: &str) -> (r: Vec<Action>)
        ensures
            (final(self)@, action_views(r@)) == old(self)@.rename(arg@),
    {
        let mut r: Vec<Action> = Vec::new();
        if arg.is_empty() {
            self.sys("usage: /name <new name>");
        } else {
            let note = concat3(self.name.as_str(), " is now known as ", arg);
            self.name = arg.to_owned();
            r.push(Action::Send(hello(self.peer_id, arg)));
            self.sys(note.as_str());
        }
        assert(action_views(r@) =~= old(self)@.rename(arg@).1);
        r
    }

    fn run_emote(&mut self, arg: &str) -> (r: Vec<Action>)
        ensures
            (final(self)@, action_views(r@)) == old(self)@.emote(arg@),
    {
        let mut r: Vec<Action> = Vec::new();
        if arg.is_empty() {
            self.sys("usage: /me <action>");
        } else {
            r.push(
                Action::Send(
                    Envelope::new(
                        self.peer_id,
                        Payload::Emote { name: self.name.clone(), action: arg.to_owned() },
                    ),
                ),
            );
            let note = concat3(self.name.as_str(), " ", arg);
            self.sys(note.as_str());
        }
        assert(action_views(r@) =~= old(self)@.emote(arg@).1);
        r
    }

    fn wish(&self, arg: &str) -> (r: Option<bool>)
        ensures
            r == mic_wish(arg@, self@.voice),
    {
        if same(arg, "on") || same(arg, "1") || same(arg, "true") {
            Some(true)
        } else if same(arg, "off") || same(arg, "0") || same(arg, "false") {
            Some(false)
        } else if arg.is_empty() {
            match &self.voice {
                Some(v) => Some(!v.mic_on()),
                None => None,
            }
        } else {
            None
        }
    }

    fn run_mic(&mut self, arg: &str) -> (r: Vec<Action>)
        ensures
            (final(self)@, action_views(r@)) == old(self)@.mic(arg@),
    {
        let mut r: Vec<Action> = Vec::new();
        match self.wish(arg) {
            Some(on) => if self.voice.is_some() {
                r.push(Action::SwitchMic(on));
            } else {
                self.sys("voice unavailable");
            },
            None => {
                self.sys("usage: /mic [on|off]");
            },
        }
        assert(action_views(r@) =~= old(self)@.mic(arg@).1);
        r
    }

    fn run_peers(&mut self, peers: &Peers)
        ensures
            final(self)@ == old(self)@.list_peers(peers@),
    {
        let names = peers.names();
        if names.len() == 0 {
            self.sys("no other peers on the group");
        } else {
            let note = concat3(
                decimal(names.len() as u64).as_str(),
                " peer(s): ",
                join(&names, ", ").as_str(),
            );
            self.sys(note.as_str());
        }
    }

    /// Runs a command, from its name in lower case, its argument, and the
    /// argument in lower case.
    pub fn run_command(&mut self, word: &str, arg: &str, arg_lower: &str, peers: &Peers) -> (r: Vec<
        Action,
    >)
        ensures
            (final(self)@, action_views(r@)) == old(self)@.run(word@, arg@, arg_lower@, peers@),
    {
        if same(word, "name") || same(word, "nick") {
            return self.run_rename(arg);
        }
        if same(word, "me") {
            return self.run_emote(arg);
        }
        if same(word, "mic") {
            return self.run_mic(arg_lower);
        }
        let r: Vec<Action> = Vec::new();
        assert(action_views(r@) =~= Seq::<ActionView>::empty());
        if same(word, "peers") {
            self.run_peers(peers);
        } else if same(word, "clear") {
            self.log.clear();
            assert(self@.log =~= Seq::<LineView>::empty());
        } else if same(word, "quit") || same(word, "exit") {
            self.quit = true;
        } else if same(word, "help") || same(word, "?") {
            self.sys("commands: /name <n>, /me <action>, /mic [on|off], /peers, /clear, /quit, /help");
        } else {
            let note = concat3("unknown command: /", word, "  (try /help)");
            self.sys(note.as_str());
        }
        r
    }

    /// Runs a command line, without its slash. Letter case does not matter in the
    /// command's name.
    pub fn handle_command(&mut self, line: &str, peers: &Peers) -> (r: Vec<Action>)
        ensures
            (final(self)@, action_views(r@)) == old(self)@.command(
                line@,
                peers@,
                |s: Seq<char>| lower(s),
            ),
            (final(self)@, action_views(r@)) == old(self)@.command(
                line@,
                peers@,
                |s: Seq<char>| lowered(s),
            ),
    {
        let (word, rest) = split_word(line);
        let arg = trim(rest);
        self.run_command(to_lower(word).as_str(), arg, to_lower(arg).as_str(), peers)
    }

    /// Says something: a text line, or a command.
    pub fn say(&mut self, body: &str, peers: &Peers) -> (r: Vec<Action>)
        ensures
            (final(self)@, action_views(r@)) == old(self)@.said(
                body@,
                peers@,
                |s: Seq<char>| lower(s),
            ),
            (final(self)@, action_views(r@)) == old(self)@.said(
                body@,
                peers@,
                |s: Seq<char>| lowered(s),
            ),
    {
        let n = body.unicode_len();
        if n == 0 || body.get_char(0) != '/' {
            return self.broadcast_text(body);
        }
        let rest = body.substring_char(1, n);
        assert(rest@ =~= body@.skip(1));
        if n > 1 && rest.get_char(0) == '/' {
            self.broadcast_text(rest)
        } else {
            self.handle_command(rest, peers)
        }
    }

    /// Sends the draft: a text line, or a command.
    pub fn send_text(&mut self, peers: &Peers) -> (r: Vec<Action>)
        ensures
            (final(self)@, action_views(r@)) == old(self)@.sent(peers@, |s: Seq<char>| lower(s)),
            (final(self)@, action_views(r@)) == old(self)@.sent(peers@, |s: Seq<char>| lowered(s)),
    {
        let draft = self.draft.clone();
        let body = trim(draft.as_str());
        if body.is_empty() {
            let r: Vec<Action> = Vec::new();
            assert(action_views(r@) =~= Seq::<ActionView>::empty());
            return r;
        }
        self.draft = String::new();
        self.say(body, peers)
    }

    /// The microphone was switched on behalf of a command; `opened` says whether
    /// a capture stream could be opened, where one had to be.
    pub fn mic_switched(&mut self, on: bool, opened: Result<(), String>)
        ensures
            final(self)@ == old(self)@.mic_reported(on, failure(opened)),
    {
        let result = match &mut self.voice {
            Some(v) => v.set_mic(on, opened),
            None => {
                return ;
            },
        };
        match result {
            Ok(()) => {
                if on {
                    self.sys("microphone on");
                } else {
                    self.sys("microphone off");
                }
            },
            Err(e) => {
                let note = concat2("mic error: ", e.as_str());
                self.sys(note.as_str());
            },
        }
    }

    /// The microphone was switched by the button.
    pub fn set_mic(&mut self, on: bool, opened: Result<(), String>)
        ensures
            final(self)@ == old(self)@.mic_set(on, failure(opened)),
    {
        let result = match &mut self.voice {
            Some(v) => v.set_mic(on, opened),
            None => {
                return ;
            },
        };
        if let Err(e) = result {
            self.voice_err = Some(e);
        }
    }

    /// A microphone was picked.
    pub fn set_input(&mut self, name: Option<String>, opened: Result<(), String>)
        ensures
            final(self)@ == old(self)@.input_set(opt_view(name), failure(opened)),
    {
        let result = match &mut self.voice {
            Some(v) => v.set_input(name, opened),
            None => {
                return ;
            },
        };
        if let Err(e) = result {
            self.voice_err = Some(e);
        }
    }

    /// Speakers were picked.
    pub fn set_output(&mut self, name: Option<String>, opened: Result<u32, String>)
        ensures
            final(self)@ == old(self)@.output_set(
                opt_view(name),
                success(opened),
                failure(opened),
            ),
    {
        let result = match &mut self.voice {
            Some(v) => v.set_output(name, opened),
            None => {
                return ;
            },
        };
        if let Err(e) = result {
            self.voice_err = Some(e);
        }
    }

    /// The devices were scanned again.
    pub fn set_devices(&mut self, inputs: Vec<String>, outputs: Vec<String>)
        ensures
            final(self)@ == (ChatView {
                input_devices: views(inputs@),
                output_devices: views(outputs@),
                ..old(self)@
            }),
    {
        self.input_devices = inputs;
        self.output_devices = outputs;
    }

    /// The engine has something to tell.
    pub fn on_message(&mut self, msg: UiMsg)
        ensures
            final(self)@ == old(self)@.told(msg@),
    {
        match msg {
            UiMsg::Joined(name) => {
                let note = concat2(name.as_str(), " joined");
                self.sys(note.as_str());
            },
            UiMsg::Left(name) => {
                let note = concat2(name.as_str(), " left");
                self.sys(note.as_str());
            },
            UiMsg::Text { who, body } => {
                self.push_line(who, body, false);
            },
            UiMsg::Emote { name, action } => {
                let note = concat3(name.as_str(), " ", action.as_str());
                self.sys(note.as_str());
            },
        }
    }

    /// The goodbye to send.
    pub fn farewell(&self) -> (r: Envelope)
        ensures
            r@ == envelope(self@.peer_id, PayloadView::Bye { name: self@.name }),
    {
        bye(self.peer_id, self.name.as_str())
    }

    /// The goodbye to send before the window closes, once the user asked for it.
    pub fn closing(&self) -> (r: Option<Envelope>)
        ensures
            match r {
                Some(env) => last_words(self@) == Some(env@),
                None => last_words(self@) is None,
            },
    {
        if self.quit {
            Some(self.farewell())
        } else {
            None
        }
    }

    /// Takes note of what happened in the compose bar. Says whether the draft is
    /// to be sent, which the button and the Enter key ask for, and whether the
    /// input is to get the focus back, which it loses to the Enter key.
    pub fn compose(&mut self, has_focus: bool, clicked: bool, lost_focus: bool, enter: bool) -> (r: (
        bool,
        bool,
    ))
        ensures
            r.0 == submits(clicked, lost_focus, enter),
            r.1 == refocuses(lost_focus, enter),
            final(self)@ == (ChatView { compose_focus: has_focus, ..old(self)@ }),
    {
        self.compose_focus = has_focus;
        let again = lost_focus && enter;
        (clicked || again, again)
    }

    /// Whether the log is to be scrolled to its end. The wish is granted once.
    pub fn take_scroll(&mut self) -> (r: bool)
        ensures
            r == old(self)@.scroll_to_bottom,
            final(self)@ == (ChatView { scroll_to_bottom: false, ..old(self)@ }),
    {
        let r = self.scroll_to_bottom;
        self.scroll_to_bottom = false;
        r
    }

    pub fn peer_id(&self) -> (r: u64)
        ensures
            r == self@.peer_id,
    {
        self.peer_id
    }

    pub fn name(&self) -> (r: &str)
        ensures
            r@ == self@.name,
    {
        self.name.as_str()
    }

    pub fn draft(&self) -> (r: &str)
        ensures
            r@ == self@.draft,
    {
        self.draft.as_str()
    }

    /// The draft was edited.
    pub fn set_draft(&mut self, draft: String)
        ensures
            final(self)@ == (ChatView { draft: draft@, ..old(self)@ }),
    {
        self.draft = draft;
    }

    pub fn log(&self) -> (r: &Vec<ChatLine>)
        ensures
            r@.map_values(|l: ChatLine| l@) == self@.log,
    {
        &self.log
    }

    pub fn compose_focus(&self) -> (r: bool)
        ensures
            r == self@.compose_focus,
    {
        self.compose_focus
    }

    pub fn voice(&self) -> (r: Option<&Voice>)
        ensures
            match r {
                Some(v) => self@.voice == Some(v@),
                None => self@.voice is None,
            },
    {
        match &self.voice {
            Some(v) => Some(v),
            None => None,
        }
    }

    pub fn voice_err(&self) -> (r: &Option<String>)
        ensures
            opt_view(*r) == self@.voice_err,
    {
        &self.voice_err
    }

    pub fn input_devices(&self) -> (r: &Vec<String>)
        ensures
            views(r@) == self@.input_devices,
    {
        &self.input_devices
    }

    pub fn output_devices(&self) -> (r: &Vec<String>)
        ensures
            views(r@) == self@.output_devices,
    {
        &self.output_devices
    }
}

// ---- laws -------------------------------------------------------------------

/// Two leading slashes send the line with one of them, whatever follows.
pub proof fn a_double_slash_sends_one(
    chat: ChatView,
    rest: Seq<char>,
    peers: Seq<PeerView>,
    low: spec_fn(Seq<char>) -> Seq<char>,
)
    ensures
        chat.said(seq!['/', '/'] + rest, peers, low) == chat.broadcast(seq!['/'] + rest),
{
    assert((seq!['/', '/'] + rest).skip(1) =~= seq!['/'] + rest);
}

/// What starts with one slash is never sent as a text line, nor logged as one,
/// whether there is such a command or not.
pub proof fn commands_are_not_sent_as_text(
    chat: ChatView,
    line: Seq<char>,
    peers: Seq<PeerView>,
    low: spec_fn(Seq<char>) -> Seq<char>,
    i: int,
)
    requires
        !starts_with_char(line, '/'),
    ensures
        ({
            let (after, actions) = chat.said(seq!['/'] + line, peers, low);
            &&& 0 <= i < actions.len() ==> !(actions[i] is Play) && !(actions[i] is Send
                && actions[i]->Send_0.payload is Text)
            &&& chat.log.len() <= i < after.log.len() ==> !after.log[i].mine
        }),
{
    assert((seq!['/'] + line).skip(1) =~= line);
}

/// A line that is logged as ours is one that was sent to everybody, under the
/// name and with the words that it is logged with.
pub proof fn own_lines_were_sent(
    chat: ChatView,
    peers: Seq<PeerView>,
    low: spec_fn(Seq<char>) -> Seq<char>,
    i: int,
)
    requires
        chat.log.len() <= i < chat.sent(peers, low).0.log.len(),
        chat.sent(peers, low).0.log[i].mine,
    ensures
        ({
            let (after, actions) = chat.sent(peers, low);
            let line = after.log[i];
            &&& line.who == chat.name
            &&& actions.contains(
                ActionView::Send(
                    envelope(chat.peer_id, PayloadView::Text { name: line.who, body: line.body }),
                ),
            )
        }),
{
    let (after, actions) = chat.sent(peers, low);
    let body = trimmed(chat.draft);
    if starts_with_char(body, '/') && !starts_with_char(body.skip(1), '/') {
        assert(seq!['/'] + body.skip(1) =~= body);
        let cleared = ChatView { draft: Seq::empty(), ..chat };
        commands_are_not_sent_as_text(cleared, body.skip(1), peers, low, i);
    } else {
        assert(actions.contains(actions[0]));
    }
}

/// Upper and lower case do not matter in the name of a command: names with the
/// same lower-case form do the same.
pub proof fn letter_case_does_not_matter(
    chat: ChatView,
    word: Seq<char>,
    other: Seq<char>,
    tail: Seq<char>,
    peers: Seq<PeerView>,
)
    requires
        is_word(word),
        is_word(other),
        lowered(word) == lowered(other),
        !starts_with_char(word, '/'),
        !starts_with_char(other, '/'),
        tail.len() > 0 ==> white_space(tail[0]),
    ensures
        chat.said(seq!['/'] + (word + tail), peers, |s: Seq<char>| lowered(s)) == chat.said(
            seq!['/'] + (other + tail),
            peers,
            |s: Seq<char>| lowered(s),
        ),
{
    lemma_said(chat, word, tail, peers);
    lemma_said(chat, other, tail, peers);
}

/// `/nick` does what `/name` does, `/exit` what `/quit` does, and `/?` what
/// `/help` does.
pub proof fn aliases_do_the_same(chat: ChatView, tail: Seq<char>, peers: Seq<PeerView>)
    requires
        tail.len() > 0 ==> white_space(tail[0]),
    ensures
        ({
            let low = |s: Seq<char>| lowered(s);
            &&& chat.said(seq!['/'] + ("nick"@ + tail), peers, low) == chat.said(
                seq!['/'] + ("name"@ + tail),
                peers,
                low,
            )
            &&& chat.said(seq!['/'] + ("exit"@ + tail), peers, low) == chat.said(
                seq!['/'] + ("quit"@ + tail),
                peers,
                low,
            )
            &&& chat.said(seq!['/'] + ("?"@ + tail), peers, low) == chat.said(
                seq!['/'] + ("help"@ + tail),
                peers,
                low,
            )
        }),
{
    reveal_strlit("name");
    reveal_strlit("nick");
    reveal_strlit("quit");
    reveal_strlit("exit");
    reveal_strlit("help");
    reveal_strlit("?");
    reveal_strlit("me");
    reveal_strlit("mic");
    reveal_strlit("peers");
    reveal_strlit("clear");
    assert("name"@[0] == 'n' && "nick"@[0] == 'n' && "me"@[0] == 'm' && "mic"@[0] == 'm');
    assert("peers"@[0] == 'p' && "clear"@[0] == 'c' && "quit"@[0] == 'q' && "exit"@[0] == 'e');
    assert("help"@[0] == 'h' && "?"@[0] == '?');
    assert(ascii_lowered("name"@) =~= "name"@);
    assert(ascii_lowered("nick"@) =~= "nick"@);
    assert(ascii_lowered("quit"@) =~= "quit"@);
    assert(ascii_lowered("exit"@) =~= "exit"@);
    assert(ascii_lowered("help"@) =~= "help"@);
    assert(ascii_lowered("?"@) =~= "?"@);
    lemma_said(chat, "name"@, tail, peers);
    lemma_said(chat, "nick"@, tail, peers);
    lemma_said(chat, "quit"@, tail, peers);
    lemma_said(chat, "exit"@, tail, peers);
    lemma_said(chat, "help"@, tail, peers);
    lemma_said(chat, "?"@, tail, peers);
}

/// White space around the argument of a command does not matter, nor which white
/// space stands in front of it.
pub proof fn white_space_around_an_argument_does_not_matter(
    chat: ChatView,
    word: Seq<char>,
    before: Seq<char>,
    arg: Seq<char>,
    behind: Seq<char>,
    sep: char,
    peers: Seq<PeerView>,
)
    requires
        is_word(word),
        !starts_with_char(word, '/'),
        before.len() > 0,
        blank(before),
        blank(behind),
        white_space(sep),
    ensures
        chat.said(
            seq!['/'] + (word + (before + arg + behind)),
            peers,
            |s: Seq<char>| lowered(s),
        ) == chat.said(
            seq!['/'] + (word + (seq![sep] + arg)),
            peers,
            |s: Seq<char>| lowered(s),
        ),
{
    let padded = before + arg + behind;
    let plain = seq![sep] + arg;
    assert(padded[0] == before[0]);
    assert(padded.skip(1) =~= before.skip(1) + arg + behind);
    assert(plain.skip(1) =~= arg);
    lemma_trimmed_padding(before.skip(1), arg, behind);
    lemma_said(chat, word, padded, peers);
    lemma_said(chat, word, plain, peers);
}

/// White space around the draft does not matter, as long as there is anything
/// else.
pub proof fn white_space_around_the_draft_does_not_matter(
    chat: ChatView,
    before: Seq<char>,
    behind: Seq<char>,
    peers: Seq<PeerView>,
    low: spec_fn(Seq<char>) -> Seq<char>,
)
    requires
        blank(before),
        blank(behind),
        trimmed(chat.draft).len() > 0,
    ensures
        (ChatView { draft: before + chat.draft + behind, ..chat }).sent(peers, low) == chat.sent(
            peers,
            low,
        ),
{
    lemma_trimmed_padding(before, chat.draft, behind);
}

/// What a slash, a word and what follows it do.
proof fn lemma_said(chat: ChatView, word: Seq<char>, tail: Seq<char>, peers: Seq<PeerView>)
    requires
        is_word(word),
        !starts_with_char(word, '/'),
        tail.len() > 0 ==> white_space(tail[0]),
    ensures
        ({
            let arg = if tail.len() > 0 {
                trimmed(tail.skip(1))
            } else {
                trimmed(Seq::empty())
            };
            chat.said(seq!['/'] + (word + tail), peers, |s: Seq<char>| lowered(s)) == chat.run(
                lowered(word),
                arg,
                lowered(arg),
                peers,
            )
        }),
{
    let body = seq!['/'] + (word + tail);
    assert(body.skip(1) =~= word + tail);
    lemma_split(word, tail);
    if word.len() == 0 && tail.len() > 0 {
        assert((word + tail)[0] == tail[0]);
    }
}

/// A text line that one peer sends shows up in the log of every other peer that
/// gets the datagram, under the sender's name and not as that peer's own.
pub proof fn text_reaches_the_others(
    from: ChatView,
    body: Seq<char>,
    to: ChatView,
    peers: Seq<PeerView>,
)
    requires
        envelope(from.peer_id, PayloadView::Text { name: from.name, body }).fits(),
    ensures
        ({
            let env = from.broadcast(body).1[0]->Send_0;
            let msg = UiMsgView::Text { who: from.name, body };
            &&& from.broadcast(body).1[0] is Send
            &&& parse_envelope(env.bytes()) == Some(env)
            &&& effects_of(peers, env).contains(EffectView::Tell(msg))
            &&& to.told(msg).log == to.log.push(LineView { who: from.name, body, mine: false })
        }),
{
    let env = from.broadcast(body).1[0]->Send_0;
    decode_inverts_encode(env, Seq::empty());
    assert(effects_of(peers, env)[1] == EffectView::Tell(
        UiMsgView::Text { who: from.name, body },
    ));
}

/// An emote reads the same for its sender and for every other peer that gets the
/// datagram.
pub proof fn emotes_read_the_same_everywhere(
    from: ChatView,
    action: Seq<char>,
    to: ChatView,
    peers: Seq<PeerView>,
)
    requires
        action.len() > 0,
        envelope(from.peer_id, PayloadView::Emote { name: from.name, action }).fits(),
    ensures
        ({
            let (after, actions) = from.emote(action);
            let env = actions[0]->Send_0;
            let msg = UiMsgView::Emote { name: from.name, action };
            &&& actions[0] is Send
            &&& parse_envelope(env.bytes()) == Some(env)
            &&& effects_of(peers, env).contains(EffectView::Tell(msg))
            &&& to.told(msg).log.last() == after.log.last()
        }),
{
    let env = from.emote(action).1[0]->Send_0;
    decode_inverts_encode(env, Seq::empty());
    assert(effects_of(peers, env)[0] == EffectView::Tell(
        UiMsgView::Emote { name: from.name, action },
    ));
}

/// A new name is announced, and what is sent from then on carries it.
pub proof fn renaming_is_announced(chat: ChatView, name: Seq<char>, body: Seq<char>)
    requires
        name.len() > 0,
    ensures
        chat.rename(name).1 == seq![
            ActionView::Send(envelope(chat.peer_id, PayloadView::Hello { name })),
        ],
        chat.rename(name).0.broadcast(body).1[0] == ActionView::Send(
            envelope(chat.peer_id, PayloadView::Text { name, body }),
        ),
{
}

/// The bare `/mic` asks for the opposite of what is, so that twice is as good as
/// not at all.
pub proof fn toggling_twice_changes_nothing(v: VoiceView)
    requires
        v.capturing == v.mic_on,
    ensures
        mic_wish(Seq::empty(), Some(v)) == Some(!v.mic_on),
        ({
            let w = v.after_mic(!v.mic_on, true);
            &&& mic_wish(Seq::empty(), Some(w)) == Some(v.mic_on)
            &&& w.after_mic(v.mic_on, true) == v
        }),
{
    reveal_strlit("on");
    reveal_strlit("off");
    reveal_strlit("0");
    reveal_strlit("1");
    reveal_strlit("true");
    reveal_strlit("false");
    assert("on"@.len() > 0 && "off"@.len() > 0 && "0"@.len() > 0 && "1"@.len() > 0);
    assert("true"@.len() > 0 && "false"@.len() > 0);
}

/// Whatever is sent or received, the identity stays, a wish to leave is not taken
/// back, the devices stay as they are, and what is new in the log is scrolled to.
pub proof fn the_rest_stays(
    chat: ChatView,
    peers: Seq<PeerView>,
    low: spec_fn(Seq<char>) -> Seq<char>,
    msg: UiMsgView,
)
    ensures
        ({
            let sent = chat.sent(peers, low).0;
            &&& sent.peer_id == chat.peer_id
            &&& chat.quit ==> sent.quit
            &&& sent.voice == chat.voice
            &&& sent.voice_err == chat.voice_err
            &&& sent.input_devices == chat.input_devices
            &&& sent.output_devices == chat.output_devices
            &&& sent.compose_focus == chat.compose_focus
            &&& sent.log.len() > chat.log.len() ==> sent.scroll_to_bottom
        }),
        ({
            let told = chat.told(msg);
            &&& told.peer_id == chat.peer_id
            &&& told.name == chat.name
            &&& told.draft == chat.draft
            &&& told.quit == chat.quit
            &&& told.voice == chat.voice
            &&& told.voice_err == chat.voice_err
            &&& told.input_devices == chat.input_devices
            &&& told.output_devices == chat.output_devices
            &&& told.compose_focus == chat.compose_focus
            &&& told.log.len() == chat.log.len() + 1
            &&& told.scroll_to_bottom
        }),
{
}

/// Everything but the log, the scrolling, the name and the wish to leave is the
/// same in both.
pub open spec fn alike(a: ChatView, b: ChatView) -> bool {
    &&& a.peer_id == b.peer_id
    &&& a.draft == b.draft
    &&& a.compose_focus == b.compose_focus
    &&& a.voice == b.voice
    &&& a.voice_err == b.voice_err
    &&& a.input_devices == b.input_devices
    &&& a.output_devices == b.output_devices
}

/// The log of `after` is that of `before` and then one line of the system, which
/// is scrolled to.
pub open spec fn notes(before: ChatView, after: ChatView, body: Seq<char>) -> bool {
    &&& after.log.len() == before.log.len() + 1
    &&& after.log.take(before.log.len() as int) == before.log
    &&& after.log.last().who == "*"@
    &&& after.log.last().body == body
    &&& !after.log.last().mine
    &&& after.scroll_to_bottom
}

/// A draft that is not a command is sent as it is, character for character but
/// for the white space around it, to everybody and once, and is logged as our own
/// line in the same words; the draft is empty then.
pub proof fn text_is_sent_as_typed(
    chat: ChatView,
    peers: Seq<PeerView>,
    low: spec_fn(Seq<char>) -> Seq<char>,
)
    requires
        trimmed(chat.draft).len() > 0,
        trimmed(chat.draft)[0] != '/',
    ensures
        ({
            let body = trimmed(chat.draft);
            let (after, actions) = chat.sent(peers, low);
            &&& actions.len() == 2
            &&& actions.contains(ActionView::Play(Cue::Message))
            &&& actions.contains(
                ActionView::Send(
                    EnvelopeView {
                        magic: 0x4C41_4E43,
                        peer_id: chat.peer_id,
                        payload: PayloadView::Text { name: chat.name, body },
                    },
                ),
            )
            &&& after.log.len() == chat.log.len() + 1
            &&& after.log.take(chat.log.len() as int) == chat.log
            &&& after.log.last() == (LineView { who: chat.name, body, mine: true })
            &&& after.draft.len() == 0
            &&& after.name == chat.name
            &&& after.quit == chat.quit
            &&& after.scroll_to_bottom
            &&& alike(ChatView { draft: after.draft, ..chat }, after)
        }),
{
    let (after, actions) = chat.sent(peers, low);
    assert(actions.contains(actions[0]) && actions.contains(actions[1]));
    assert(after.log.take(chat.log.len() as int) =~= chat.log);
    assert(after.draft =~= Seq::<char>::empty());
}

/// What starts with two slashes is sent as a text line with the first of them
/// taken off, and no other change.
pub proof fn a_literal_slash_is_sent(
    chat: ChatView,
    rest: Seq<char>,
    peers: Seq<PeerView>,
    low: spec_fn(Seq<char>) -> Seq<char>,
)
    ensures
        ({
            let body = seq!['/'] + rest;
            let (after, actions) = chat.said(seq!['/', '/'] + rest, peers, low);
            &&& actions.len() == 2
            &&& actions.contains(ActionView::Play(Cue::Message))
            &&& actions.contains(
                ActionView::Send(
                    EnvelopeView {
                        magic: 0x4C41_4E43,
                        peer_id: chat.peer_id,
                        payload: PayloadView::Text { name: chat.name, body },
                    },
                ),
            )
            &&& after.log == chat.log.push(LineView { who: chat.name, body, mine: true })
            &&& after.name == chat.name
            &&& after.quit == chat.quit
            &&& alike(chat, after)
        }),
{
    a_double_slash_sends_one(chat, rest, peers, low);
    let (after, actions) = chat.said(seq!['/', '/'] + rest, peers, low);
    assert(actions.contains(actions[0]) && actions.contains(actions[1]));
}

/// A draft of nothing but white space is neither sent nor run nor touched.
pub proof fn blank_drafts_do_nothing(
    chat: ChatView,
    peers: Seq<PeerView>,
    low: spec_fn(Seq<char>) -> Seq<char>,
)
    requires
        blank(chat.draft),
    ensures
        chat.sent(peers, low).0 == chat,
        chat.sent(peers, low).1.len() == 0,
{
    lemma_trimmed_padding(chat.draft, Seq::empty(), Seq::empty());
    assert(chat.draft + Seq::<char>::empty() + Seq::<char>::empty() =~= chat.draft);
}

/// The argument in what follows the name of a command.
pub open spec fn argument(tail: Seq<char>) -> Seq<char> {
    if tail.len() > 0 {
        trimmed(tail.skip(1))
    } else {
        Seq::empty()
    }
}

/// The line of a command: a slash, a name without white space, and nothing more
/// or white space and more.
pub open spec fn is_command_line(word: Seq<char>, tail: Seq<char>) -> bool {
    &&& is_word(word)
    &&& !starts_with_char(word, '/')
    &&& tail.len() > 0 ==> white_space(tail[0])
}

proof fn lemma_command_line(chat: ChatView, word: Seq<char>, tail: Seq<char>, peers: Seq<PeerView>)
    requires
        is_command_line(word, tail),
    ensures
        chat.said(seq!['/'] + (word + tail), peers, |s: Seq<char>| lowered(s)) == chat.run(
            lowered(word),
            argument(tail),
            lowered(argument(tail)),
            peers,
        ),
{
    lemma_said(chat, word, tail, peers);
    assert(trimmed(Seq::empty()) =~= Seq::<char>::empty());
}

proof fn lemma_command_names()
    ensures
        "name"@.len() == 4 && "name"@[0] == 'n',
        "nick"@.len() == 4 && "nick"@[0] == 'n',
        "me"@.len() == 2 && "me"@[0] == 'm',
        "mic"@.len() == 3 && "mic"@[0] == 'm',
        "peers"@.len() == 5 && "peers"@[0] == 'p',
        "clear"@.len() == 5 && "clear"@[0] == 'c',
        "quit"@.len() == 4 && "quit"@[0] == 'q',
        "exit"@.len() == 4 && "exit"@[0] == 'e',
        "help"@.len() == 4 && "help"@[0] == 'h',
        "?"@.len() == 1 && "?"@[0] == '?',
{
    reveal_strlit("name");
    reveal_strlit("nick");
    reveal_strlit("me");
    reveal_strlit("mic");
    reveal_strlit("peers");
    reveal_strlit("clear");
    reveal_strlit("quit");
    reveal_strlit("exit");
    reveal_strlit("help");
    reveal_strlit("?");
}

/// `/name` and `/nick` with an argument change the name to it, announce the new
/// name to everybody, once, and note the change; without one they change and
/// send nothing.
pub proof fn name_commands_rename(
    chat: ChatView,
    word: Seq<char>,
    tail: Seq<char>,
    peers: Seq<PeerView>,
)
    requires
        is_command_line(word, tail),
        lowered(word) == "name"@ || lowered(word) == "nick"@,
    ensures
        ({
            let arg = argument(tail);
            let (after, actions) = chat.said(
                seq!['/'] + (word + tail),
                peers,
                |s: Seq<char>| lowered(s),
            );
            &&& alike(chat, after)
            &&& after.quit == chat.quit
            &&& arg.len() > 0 ==> {
                &&& after.name == arg
                &&& notes(chat, after, chat.name + " is now known as "@ + arg)
                &&& actions.len() == 1
                &&& actions[0] == ActionView::Send(
                    EnvelopeView {
                        magic: 0x4C41_4E43,
                        peer_id: chat.peer_id,
                        payload: PayloadView::Hello { name: arg },
                    },
                )
            }
            &&& arg.len() == 0 ==> {
                &&& after.name == chat.name
                &&& notes(chat, after, "usage: /name <new name>"@)
                &&& actions.len() == 0
            }
        }),
{
    lemma_command_line(chat, word, tail, peers);
    let (after, _) = chat.rename(argument(tail));
    assert(after.log.take(chat.log.len() as int) =~= chat.log);
}

/// `/me` with an argument sends it to everybody as an emote, once, and notes it
/// behind our name; without one it sends nothing.
pub proof fn me_commands_emote(
    chat: ChatView,
    word: Seq<char>,
    tail: Seq<char>,
    peers: Seq<PeerView>,
)
    requires
        is_command_line(word, tail),
        lowered(word) == "me"@,
    ensures
        ({
            let arg = argument(tail);
            let (after, actions) = chat.said(
                seq!['/'] + (word + tail),
                peers,
                |s: Seq<char>| lowered(s),
            );
            &&& alike(chat, after)
            &&& after.name == chat.name
            &&& after.quit == chat.quit
            &&& arg.len() > 0 ==> {
                &&& notes(chat, after, chat.name + " "@ + arg)
                &&& actions.len() == 1
                &&& actions[0] == ActionView::Send(
                    EnvelopeView {
                        magic: 0x4C41_4E43,
                        peer_id: chat.peer_id,
                        payload: PayloadView::Emote { name: chat.name, action: arg },
                    },
                )
            }
            &&& arg.len() == 0 ==> {
                &&& notes(chat, after, "usage: /me <action>"@)
                &&& actions.len() == 0
            }
        }),
{
    lemma_command_line(chat, word, tail, peers);
    lemma_command_names();
    let (after, _) = chat.emote(argument(tail));
    assert(after.log.take(chat.log.len() as int) =~= chat.log);
}

proof fn lemma_mic_words()
    ensures
        "on"@.len() == 2 && "off"@.len() == 3 && "0"@.len() == 1 && "1"@.len() == 1,
        "0"@[0] == '0' && "1"@[0] == '1',
        "true"@.len() == 4 && "false"@.len() == 5,
{
    reveal_strlit("on");
    reveal_strlit("off");
    reveal_strlit("0");
    reveal_strlit("1");
    reveal_strlit("true");
    reveal_strlit("false");
}

/// With audio, `/mic on` (or `1`, or `true`) asks for the microphone to be on,
/// `/mic off` (or `0`, or `false`) for it to be off, whatever it is, and the bare
/// `/mic` for the opposite of what it is; each asks once and does nothing else.
/// Any other argument asks for nothing. Without audio nothing is asked for.
pub proof fn mic_commands_ask_for_what_they_say(
    chat: ChatView,
    word: Seq<char>,
    tail: Seq<char>,
    peers: Seq<PeerView>,
)
    requires
        is_command_line(word, tail),
        lowered(word) == "mic"@,
    ensures
        ({
            let arg = lowered(argument(tail));
            let on = arg == "on"@ || arg == "1"@ || arg == "true"@;
            let off = arg == "off"@ || arg == "0"@ || arg == "false"@;
            let (after, actions) = chat.said(
                seq!['/'] + (word + tail),
                peers,
                |s: Seq<char>| lowered(s),
            );
            &&& alike(chat, after)
            &&& after.name == chat.name
            &&& after.quit == chat.quit
            &&& chat.voice is Some && on ==> after == chat && actions.len() == 1 && actions[0]
                == ActionView::SwitchMic(true)
            &&& chat.voice is Some && off ==> after == chat && actions.len() == 1 && actions[0]
                == ActionView::SwitchMic(false)
            &&& chat.voice is Some && arg.len() == 0 ==> after == chat && actions.len() == 1
                && actions[0] == ActionView::SwitchMic(!chat.voice->0.mic_on)
            &&& chat.voice is None && (on || off) ==> notes(chat, after, "voice unavailable"@)
                && actions.len() == 0
            &&& !on && !off && (arg.len() > 0 || chat.voice is None) ==> notes(
                chat,
                after,
                "usage: /mic [on|off]"@,
            ) && actions.len() == 0
        }),
{
    lemma_command_line(chat, word, tail, peers);
    lemma_command_names();
    lemma_mic_words();
    let (after, _) = chat.mic(lowered(argument(tail)));
    if after != chat {
        assert(after.log.take(chat.log.len() as int) =~= chat.log);
    }
}

/// `/peers` notes how many peers there are and their names in order, and sends
/// nothing.
pub proof fn peers_commands_list(
    chat: ChatView,
    word: Seq<char>,
    tail: Seq<char>,
    peers: Seq<PeerView>,
)
    requires
        is_command_line(word, tail),
        lowered(word) == "peers"@,
    ensures
        ({
            let (after, actions) = chat.said(
                seq!['/'] + (word + tail),
                peers,
                |s: Seq<char>| lowered(s),
            );
            &&& alike(chat, after)
            &&& after.name == chat.name
            &&& after.quit == chat.quit
            &&& actions.len() == 0
            &&& peers.len() == 0 ==> notes(chat, after, "no other peers on the group"@)
            &&& peers.len() > 0 ==> notes(
                chat,
                after,
                digits(peers.len()) + " peer(s): "@ + joined(sorted_names(peers), ", "@),
            )
        }),
{
    lemma_command_line(chat, word, tail, peers);
    lemma_command_names();
    names_are_ordered_and_complete(peers);
    let after = chat.list_peers(peers);
    assert(after.log.take(chat.log.len() as int) =~= chat.log);
}

/// `/clear` empties the log and does nothing else.
pub proof fn clear_commands_clear(
    chat: ChatView,
    word: Seq<char>,
    tail: Seq<char>,
    peers: Seq<PeerView>,
)
    requires
        is_command_line(word, tail),
        lowered(word) == "clear"@,
    ensures
        ({
            let (after, actions) = chat.said(
                seq!['/'] + (word + tail),
                peers,
                |s: Seq<char>| lowered(s),
            );
            &&& after.log.len() == 0
            &&& actions.len() == 0
            &&& alike(chat, after)
            &&& after.name == chat.name
            &&& after.quit == chat.quit
            &&& after.scroll_to_bottom == chat.scroll_to_bottom
        }),
{
    lemma_command_line(chat, word, tail, peers);
    lemma_command_names();
}

/// `/quit` and `/exit` wish to leave and do nothing else; no other line does.
pub proof fn only_quit_commands_quit(
    chat: ChatView,
    word: Seq<char>,
    tail: Seq<char>,
    peers: Seq<PeerView>,
)
    requires
        is_command_line(word, tail),
    ensures
        ({
            let leaves = lowered(word) == "quit"@ || lowered(word) == "exit"@;
            let (after, actions) = chat.said(
                seq!['/'] + (word + tail),
                peers,
                |s: Seq<char>| lowered(s),
            );
            &&& leaves ==> after.quit && after.log == chat.log && after.name == chat.name
                && actions.len() == 0 && alike(chat, after)
            &&& !leaves ==> after.quit == chat.quit
        }),
{
    lemma_command_line(chat, word, tail, peers);
    lemma_command_names();
}

/// `/help` and `/?` note the commands; a command that there is not is noted as
/// unknown. Neither sends or changes anything.
pub proof fn other_commands_only_note(
    chat: ChatView,
    word: Seq<char>,
    tail: Seq<char>,
    peers: Seq<PeerView>,
)
    requires
        is_command_line(word, tail),
        !seq!["name"@, "nick"@, "me"@, "mic"@, "peers"@, "clear"@, "quit"@, "exit"@].contains(
            lowered(word),
        ),
    ensures
        ({
            let (after, actions) = chat.said(
                seq!['/'] + (word + tail),
                peers,
                |s: Seq<char>| lowered(s),
            );
            &&& alike(chat, after)
            &&& after.name == chat.name
            &&& after.quit == chat.quit
            &&& actions.len() == 0
            &&& lowered(word) == "help"@ || lowered(word) == "?"@ ==> notes(
                chat,
                after,
                "commands: /name <n>, /me <action>, /mic [on|off], /peers, /clear, /quit, /help"@,
            )
            &&& lowered(word) != "help"@ && lowered(word) != "?"@ ==> notes(
                chat,
                after,
                "unknown command: /"@ + lowered(word) + "  (try /help)"@,
            )
        }),
{
    lemma_command_line(chat, word, tail, peers);
    let known = seq!["name"@, "nick"@, "me"@, "mic"@, "peers"@, "clear"@, "quit"@, "exit"@];
    assert(known[0] == "name"@ && known[1] == "nick"@ && known[2] == "me"@ && known[3] == "mic"@);
    assert(known[4] == "peers"@ && known[5] == "clear"@ && known[6] == "quit"@ && known[7]
        == "exit"@);
    let (after, _) = chat.run(
        lowered(word),
        argument(tail),
        lowered(argument(tail)),
        peers,
    );
    assert(after.log.take(chat.log.len() as int) =~= chat.log);
}

/// Whatever the engine tells becomes exactly one line, behind those that are
/// there: what somebody said, in their words and under their name, and everything
/// else as a note. Nothing of it is ours, and nothing else changes.
pub proof fn what_is_told_is_one_line(chat: ChatView, msg: UiMsgView)
    ensures
        ({
            let after = chat.told(msg);
            &&& alike(chat, after)
            &&& after.name == chat.name
            &&& after.quit == chat.quit
            &&& after.log.len() == chat.log.len() + 1
            &&& after.log.take(chat.log.len() as int) == chat.log
            &&& !after.log.last().mine
            &&& after.scroll_to_bottom
            &&& msg is Text ==> after.log.last().who == msg->who && after.log.last().body
                == msg->body
            &&& msg is Joined ==> notes(chat, after, msg->Joined_0 + " joined"@)
            &&& msg is Left ==> notes(chat, after, msg->Left_0 + " left"@)
            &&& msg is Emote ==> notes(chat, after, msg->name + " "@ + msg->action)
        }),
{
    let after = chat.told(msg);
    assert(after.log.take(chat.log.len() as int) =~= chat.log);
}

/// Switching the microphone by command always says what came of it, in one note:
/// that it is on, that it is off, or what went wrong, in which case it stays what
/// it was. Without audio nothing happens.
pub proof fn switching_is_reported(chat: ChatView, on: bool, failure: Option<Seq<char>>)
    ensures
        ({
            let after = chat.mic_reported(on, failure);
            let v = chat.voice->0;
            let w = after.voice->0;
            &&& chat.voice is None ==> after == chat
            &&& chat.voice is Some ==> {
                let fails = on && !v.capturing && failure is Some;
                &&& after.voice is Some
                &&& alike(chat, ChatView { voice: chat.voice, ..after })
                &&& after.name == chat.name
                &&& after.quit == chat.quit
                &&& fails ==> w == v && notes(chat, after, "mic error: "@ + failure->0)
                &&& !fails ==> w.mic_on == on && w.capturing == on
                &&& !fails && on ==> notes(chat, after, "microphone on"@)
                &&& !fails && !on ==> notes(chat, after, "microphone off"@)
            }
        }),
{
    let after = chat.mic_reported(on, failure);
    if chat.voice is Some {
        assert(after.log.take(chat.log.len() as int) =~= chat.log);
    }
}

/// Switching the microphone and picking devices by hand add nothing to the log:
/// what went wrong is kept to be shown, and what went well leaves that alone.
pub proof fn device_errors_are_kept(
    chat: ChatView,
    on: bool,
    name: Option<Seq<char>>,
    rate: u32,
    e: Seq<char>,
)
    requires
        chat.voice is Some,
    ensures
        ({
            let v = chat.voice->0;
            &&& chat.mic_set(on, None).voice_err == chat.voice_err
            &&& on && !v.capturing ==> chat.mic_set(on, Some(e)).voice_err == Some(e)
            &&& !on || v.capturing ==> chat.mic_set(on, Some(e)).voice_err == chat.voice_err
            &&& chat.input_set(name, None).voice_err == chat.voice_err
            &&& v.mic_on ==> chat.input_set(name, Some(e)).voice_err == Some(e)
            &&& !v.mic_on ==> chat.input_set(name, Some(e)).voice_err == chat.voice_err
            &&& chat.output_set(name, Some(rate), None).voice_err == chat.voice_err
            &&& chat.output_set(name, None, Some(e)).voice_err == Some(e)
            &&& chat.mic_set(on, Some(e)).log == chat.log
            &&& chat.input_set(name, Some(e)).log == chat.log
            &&& chat.output_set(name, None, Some(e)).log == chat.log
            &&& chat.mic_set(on, None).voice == Some(v.after_mic(on, true))
            &&& chat.mic_set(on, Some(e)).voice == Some(v.after_mic(on, false))
            &&& chat.input_set(name, None).voice == Some(v.after_input(name, true))
            &&& chat.input_set(name, Some(e)).voice == Some(v.after_input(name, false))
            &&& chat.output_set(name, Some(rate), None).voice == Some(
                v.after_output(name, Some(rate)),
            )
            &&& chat.output_set(name, None, Some(e)).voice == Some(v.after_output(name, None))
        }),
{
}

/// A chat starts with nothing written, said or asked for, under the given name,
/// and with the microphone off; it has audio exactly if the speakers could be
/// opened, and says what went wrong if not.
pub proof fn a_chat_starts_empty(
    peer_id: u64,
    name: Seq<char>,
    rate: u32,
    e: Seq<char>,
    inputs: Seq<Seq<char>>,
    outputs: Seq<Seq<char>>,
)
    ensures
        ({
            let heard = started(peer_id, name, Some(rate), None, inputs, outputs);
            let mute = started(peer_id, name, None, Some(e), inputs, outputs);
            &&& heard.peer_id == peer_id && heard.name == name
            &&& heard.log.len() == 0 && heard.draft.len() == 0
            &&& !heard.quit && !heard.scroll_to_bottom && !heard.compose_focus
            &&& heard.input_devices == inputs && heard.output_devices == outputs
            &&& heard.voice is Some && heard.voice_err is None
            &&& !heard.voice->0.mic_on && !heard.voice->0.capturing
            &&& heard.voice->0.out_rate == rate
            &&& heard.voice->0.input is None && heard.voice->0.output is None
            &&& mute.voice is None && mute.voice_err == Some(e)
            &&& mute == (ChatView { voice: None, voice_err: Some(e), ..heard })
        }),
{
}

/// A goodbye is owed exactly when leaving was asked for, and says who leaves; so
/// nothing but `/quit` and `/exit` closes the window.
pub proof fn leaving_says_goodbye(chat: ChatView)
    ensures
        !chat.quit ==> last_words(chat) is None,
        chat.quit ==> last_words(chat) == Some(
            EnvelopeView {
                magic: 0x4C41_4E43,
                peer_id: chat.peer_id,
                payload: PayloadView::Bye { name: chat.name },
            },
        ),
{
}

/// The button sends whatever the keyboard does; the Enter key sends exactly if it
/// took the focus from the input, which then gets it back.
pub proof fn the_compose_bar_listens(clicked: bool, lost_focus: bool, enter: bool)
    ensures
        clicked ==> submits(clicked, lost_focus, enter),
        !clicked ==> submits(clicked, lost_focus, enter) == refocuses(lost_focus, enter),
        refocuses(lost_focus, enter) ==> submits(clicked, lost_focus, enter),
        refocuses(true, true),
        !refocuses(lost_focus, false),
        !refocuses(false, enter),
{
}

/// Sending a draft is saying it without the white space around it, and then the
/// draft is empty; what saying it does, does not depend on the draft.
pub proof fn sending_is_saying_the_draft(
    chat: ChatView,
    peers: Seq<PeerView>,
    low: spec_fn(Seq<char>) -> Seq<char>,
)
    requires
        trimmed(chat.draft).len() > 0,
    ensures
        ({
            let (sent, sent_actions) = chat.sent(peers, low);
            let (said, said_actions) = chat.said(trimmed(chat.draft), peers, low);
            &&& sent.draft.len() == 0
            &&& said.draft == chat.draft
            &&& sent == (ChatView { draft: sent.draft, ..said })
            &&& sent_actions == said_actions
        }),
{
}

} // verus!
