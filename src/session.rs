use vstd::prelude::*;
use vstd::string::StringExecFns;
use crate::codec::{
    decode, decode_message_data, decode_message_spec, decode_reaction_payload,
    decode_reaction_spec, decode_spec, enc_reaction, encode, encode_reaction_payload,
    encode_spec, texts, EnvelopeView, MessageData, MessageView, MsgTypes, WebSocketMessage,
};
use crate::text::{is_white_space, local_clock_hm, white_space};
use crate::timing::{lemma_deadline_absent, deadline_of, due, keys_unique, pending, rearm_all, scheduled, ExpiryTable};

verus! {

/// How long a remote participant stays in the typing set after their last `typing` envelope.
pub const TYPING_TTL_MS: u64 = 3000;

/// The abstract value of a participant.
pub struct UserView {
    pub name: Seq<char>,
    pub avatar: Seq<char>,
    pub online: bool,
}

/// A participant of the roster.
pub struct UserProfile {
    pub name: String,
    pub avatar: String,
    pub online: bool,
}

impl View for UserProfile {
    type V = UserView;

    open spec fn view(&self) -> UserView {
        UserView { name: self.name@, avatar: self.avatar@, online: self.online }
    }
}

/// The avatar address derived from a participant's name.
pub open spec fn avatar_of(name: Seq<char>) -> Seq<char> {
    "https://avatars.dicebear.com/api/adventurer-neutral/"@ + name + ".svg"@
}

/// The roster that a list of names stands for: one online participant per name, in order.
pub open spec fn roster_of(names: Seq<Seq<char>>) -> Seq<UserView> {
    Seq::new(names.len(), |i: int| UserView { name: names[i], avatar: avatar_of(names[i]), online: true })
}

/// Which of the observable collections a step changed.
#[derive(Clone, Copy, Debug, PartialEq, Eq, Structural)]
pub enum Change {
    Nothing,
    Roster,
    Messages,
    Typing,
    Reactions,
    Theme,
}

/// The abstract state of a chat session.
pub struct ChatView {
    pub users: Seq<UserView>,
    pub messages: Seq<MessageView>,
    pub typing: Seq<(Seq<char>, u64)>,
    pub reactions: Seq<(usize, Seq<char>)>,
    pub composing: bool,
    pub dark_mode: bool,
}

/// An event handed to the session: an inbound text, or an action of the local user.
pub enum Msg {
    HandleMsg(String),
    SubmitMessage(String),
    ToggleDarkMode,
    AddReaction(usize, String),
    SetTyping(bool),
    ExpireTyping,
}

/// What a step asks of the outside: redraw what changed, and send a text, if any.
pub struct Step {
    pub change: Change,
    pub send: Option<String>,
}

pub open spec fn opt_text(o: Option<String>) -> Option<Seq<char>> {
    match o {
        None => None,
        Some(s) => Some(s@),
    }
}

/// The display time given to a message that arrived without one.
pub open spec fn stamp(m: MessageView, clock: Seq<char>) -> MessageView {
    match m.timestamp {
        None => MessageView { timestamp: Some(clock), ..m },
        Some(_) => m,
    }
}

/// When a typing entry received at `now` expires.
pub open spec fn typing_deadline(now: u64) -> u64 {
    if now + TYPING_TTL_MS > u64::MAX {
        u64::MAX
    } else {
        (now + TYPING_TTL_MS) as u64
    }
}

/// How an inbound text changes the session: a text that does not decode, or that
/// lacks the field its kind needs, changes nothing.
pub open spec fn inbound(v: ChatView, text: Seq<char>, now: u64, clock: Seq<char>) -> (ChatView, Change) {
    match decode_spec(text) {
        Err(_) => (v, Change::Nothing),
        Ok(e) => match e.kind {
            MsgTypes::Users => match e.items {
                Some(names) => (ChatView { users: roster_of(names), ..v }, Change::Roster),
                None => (v, Change::Nothing),
            },
            MsgTypes::Message => match e.payload {
                Some(p) => match decode_message_spec(p) {
                    Some(m) => (
                        ChatView { messages: v.messages.push(stamp(m, clock)), ..v },
                        Change::Messages,
                    ),
                    None => (v, Change::Nothing),
                },
                None => (v, Change::Nothing),
            },
            MsgTypes::Typing => match e.payload {
                Some(name) => (
                    ChatView { typing: scheduled(v.typing, name, typing_deadline(now)), ..v },
                    Change::Typing,
                ),
                None => (v, Change::Nothing),
            },
            MsgTypes::Reaction => match e.payload {
                Some(p) => match decode_reaction_spec(p) {
                    Some((i, s)) => (
                        ChatView { reactions: v.reactions.push((i as usize, s)), ..v },
                        Change::Reactions,
                    ),
                    None => (v, Change::Nothing),
                },
                None => (v, Change::Nothing),
            },
            MsgTypes::Register => (v, Change::Nothing),
        },
    }
}

pub open spec fn envelope(kind: MsgTypes, payload: Option<Seq<char>>) -> EnvelopeView {
    EnvelopeView { kind, items: None, payload }
}

/// The text that announces the local user's name.
pub open spec fn register_text(name: Seq<char>) -> Seq<char> {
    encode_spec(envelope(MsgTypes::Register, Some(name)))
}

/// The text that posts a chat message.
pub open spec fn message_text(body: Seq<char>) -> Seq<char> {
    encode_spec(envelope(MsgTypes::Message, Some(body)))
}

/// The text that reacts to the message at `index`.
pub open spec fn reaction_text(index: usize, symbol: Seq<char>) -> Seq<char> {
    encode_spec(envelope(MsgTypes::Reaction, Some(enc_reaction(index as nat, symbol))))
}

/// The text that says the local user started typing; the server adds the name.
pub open spec fn typing_text() -> Seq<char> {
    encode_spec(envelope(MsgTypes::Typing, None))
}

/// A text made of white space only (the empty text included).
pub open spec fn is_blank(s: Seq<char>) -> bool {
    forall|i: int| 0 <= i < s.len() ==> white_space(#[trigger] s[i])
}

/// Setting the local typing flag: a `typing` text goes out on the false-to-true edge only.
pub open spec fn composing_step(v: ChatView, composing: bool) -> (ChatView, Option<Seq<char>>) {
    (
        ChatView { composing, ..v },
        if composing && !v.composing { Some(typing_text()) } else { None },
    )
}

/// The symbols of the reactions that target the message at `index`, in order of arrival.
pub open spec fn reactions_on(rs: Seq<(usize, Seq<char>)>, index: usize) -> Seq<Seq<char>>
    decreases rs.len(),
{
    if rs.len() == 0 {
        Seq::empty()
    } else if rs.last().0 == index {
        reactions_on(rs.drop_last(), index).push(rs.last().1)
    } else {
        reactions_on(rs.drop_last(), index)
    }
}

/// The session: roster, messages, typing set, reactions and the local typing flag.
pub struct Chat {
    users: Vec<UserProfile>,
    messages: Vec<MessageData>,
    typing_users: ExpiryTable,
    reactions: Vec<(usize, String)>,
    typing: bool,
    dark_mode: bool,
}

impl View for Chat {
    type V = ChatView;

    closed spec fn view(&self) -> ChatView {
        ChatView {
            users: self.users@.map_values(|u: UserProfile| u@),
            messages: self.messages@.map_values(|m: MessageData| m@),
            typing: self.typing_users@,
            reactions: self.reactions@.map_values(|r: (usize, String)| (r.0, r.1@)),
            composing: self.typing,
            dark_mode: self.dark_mode,
        }
    }
}

fn send_envelope(kind: MsgTypes, payload: Option<String>) -> (r: String)
    ensures
        r@ == encode_spec(envelope(kind, opt_text(payload))),
{
    let e = WebSocketMessage { message_type: kind, data_array: None, data: payload };
    encode(&e)
}

fn avatar(name: &String) -> (r: String)
    ensures
        r@ == avatar_of(name@),
{
    let mut a = String::from_str("https://avatars.dicebear.com/api/adventurer-neutral/");
    a.append(name.as_str());
    a.append(".svg");
    a
}

/// Whether `text` holds white space only.
pub fn blank(text: &str) -> (r: bool)
    ensures
        r == is_blank(text@),
{
    let cs = crate::text::chars_of(text);
    let mut i: usize = 0;
    while i < cs.len()
        invariant
            i <= cs.len(),
            cs@ == text@,
            forall|j: int| 0 <= j < i ==> white_space(#[trigger] cs@[j]),
        decreases cs.len() - i,
    {
        if !is_white_space(cs[i]) {
            return false;
        }
        i = i + 1;
    }
    true
}

impl Chat {
    /// Typing entries have unique names.
    pub closed spec fn wf(&self) -> bool {
        self.typing_users.wf()
    }

    /// A new session for `username`, with the text that registers it: the first
    /// text a session sends.
    pub fn create(username: &str) -> (r: (Chat, String))
        ensures
            r.0.wf(),
            r.0@.users.len() == 0,
            r.0@.messages.len() == 0,
            r.0@.typing.len() == 0,
            r.0@.reactions.len() == 0,
            !r.0@.composing,
            !r.0@.dark_mode,
            r.1@ == register_text(username@),
    {
        let chat = Chat {
            users: Vec::new(),
            messages: Vec::new(),
            typing_users: ExpiryTable::new(),
            reactions: Vec::new(),
            typing: false,
            dark_mode: false,
        };
        let text = send_envelope(MsgTypes::Register, Some(String::from_str(username)));
        (chat, text)
    }

    /// The roster, in the order the last `users` envelope listed it.
    pub fn users(&self) -> (r: &Vec<UserProfile>)
        ensures
            r@.map_values(|u: UserProfile| u@) == self@.users,
    {
        &self.users
    }

    /// The messages, in order of arrival.
    pub fn messages(&self) -> (r: &Vec<MessageData>)
        ensures
            r@.map_values(|m: MessageData| m@) == self@.messages,
    {
        &self.messages
    }

    /// The reactions, in order of arrival, each with the index of the message it targets.
    pub fn reactions(&self) -> (r: &Vec<(usize, String)>)
        ensures
            r@.map_values(|r: (usize, String)| (r.0, r.1@)) == self@.reactions,
    {
        &self.reactions
    }

    /// The symbols shown under the message at `index`; a reaction whose index matches
    /// no message is never shown.
    pub fn reactions_for(&self, index: usize) -> (r: Vec<String>)
        ensures
            r@.map_values(|x: String| x@) == reactions_on(self@.reactions, index),
    {
        let ghost rs = self@.reactions;
        let mut out: Vec<String> = Vec::new();
        let mut i: usize = 0;
        while i < self.reactions.len()
            invariant
                i <= self.reactions.len(),
                rs == self.reactions@.map_values(|r: (usize, String)| (r.0, r.1@)),
                out@.map_values(|x: String| x@) == reactions_on(rs.take(i as int), index),
            decreases self.reactions.len() - i,
        {
            proof {
                assert(rs.take(i as int + 1).drop_last() =~= rs.take(i as int));
            }
            if self.reactions[i].0 == index {
                out.push(self.reactions[i].1.clone());
                assert(out@.map_values(|x: String| x@) =~= reactions_on(rs.take(i as int + 1), index));
            }
            i = i + 1;
        }
        assert(rs.take(i as int) =~= rs);
        out
    }

    /// The names of the participants currently typing, in the order they started.
    pub fn typing_users(&self) -> (r: Vec<String>)
        ensures
            r@.len() == self@.typing.len(),
            forall|i: int| 0 <= i < r@.len() ==> #[trigger] r@[i]@ == self@.typing[i].0,
    {
        self.typing_users.keys()
    }

    /// Whether the local composition box is non-empty.
    pub fn composing(&self) -> (r: bool)
        ensures
            r == self@.composing,
    {
        self.typing
    }

    /// Whether the dark theme is on.
    pub fn dark_mode(&self) -> (r: bool)
        ensures
            r == self@.dark_mode,
    {
        self.dark_mode
    }

    /// Applies an inbound text received at `now` (milliseconds); `clock` is the local
    /// display time given to a message that carries none.
    pub fn handle_inbound(&mut self, text: &str, now: u64, clock: String) -> (r: Change)
        requires
            old(self).wf(),
        ensures
            final(self).wf(),
            (final(self)@, r) == inbound(old(self)@, text@, now, clock@),
    {
        let e = match decode(text) {
            Err(_) => {
                return Change::Nothing;
            },
            Ok(e) => e,
        };
        match e.message_type {
            MsgTypes::Users => match e.data_array {
                Some(names) => {
                    self.replace_roster(&names);
                    Change::Roster
                },
                None => Change::Nothing,
            },
            MsgTypes::Message => match e.data {
                Some(p) => match decode_message_data(p.as_str()) {
                    Ok(m) => {
                        let MessageData { from, message, timestamp } = m;
                        let timestamp = match timestamp {
                            None => Some(clock),
                            Some(t) => Some(t),
                        };
                        let ghost m0 = self.messages@;
                        self.messages.push(MessageData { from, message, timestamp });
                        assert(self.messages@.map_values(|m: MessageData| m@) =~= m0.map_values(|m: MessageData| m@).push(self.messages@.last()@));
                        Change::Messages
                    },
                    Err(_) => Change::Nothing,
                },
                None => Change::Nothing,
            },
            MsgTypes::Typing => match e.data {
                Some(name) => {
                    let deadline = now.saturating_add(TYPING_TTL_MS);
                    self.typing_users.schedule(name, deadline);
                    Change::Typing
                },
                None => Change::Nothing,
            },
            MsgTypes::Reaction => match e.data {
                Some(p) => match decode_reaction_payload(p.as_str()) {
                    Ok((i, s)) => {
                        let ghost r0 = self.reactions@;
                        self.reactions.push((i, s));
                        assert(self.reactions@.map_values(|r: (usize, String)| (r.0, r.1@)) =~= r0.map_values(|r: (usize, String)| (r.0, r.1@)).push((i, self.reactions@.last().1@)));
                        Change::Reactions
                    },
                    Err(_) => Change::Nothing,
                },
                None => Change::Nothing,
            },
            MsgTypes::Register => Change::Nothing,
        }
    }

    fn replace_roster(&mut self, names: &Vec<String>)
        ensures
            final(self)@ == (ChatView { users: roster_of(texts(names@)), ..old(self)@ }),
            final(self).typing_users == old(self).typing_users,
    {
        let mut users: Vec<UserProfile> = Vec::new();
        let mut i: usize = 0;
        while i < names.len()
            invariant
                i <= names.len(),
                users@.map_values(|u: UserProfile| u@) == roster_of(texts(names@)).take(i as int),
            decreases names.len() - i,
        {
            let name = names[i].clone();
            let av = avatar(&name);
            let ghost u0 = users@;
            users.push(UserProfile { name, avatar: av, online: true });
            proof {
                let ns = texts(names@);
                assert(ns[i as int] == names@[i as int]@);
                assert(roster_of(ns)[i as int] == users@.last()@);
                assert(users@.map_values(|u: UserProfile| u@) =~= u0.map_values(|u: UserProfile| u@).push(users@.last()@));
                assert(roster_of(ns).take(i as int + 1) =~= roster_of(ns).take(i as int).push(roster_of(ns)[i as int]));
            }
            i = i + 1;
        }
        assert(roster_of(texts(names@)).take(i as int) =~= roster_of(texts(names@)));
        self.users = users;
    }

    /// The text that posts `text`, or `None` where `text` is blank.
    pub fn submit(&self, text: &str) -> (r: Option<String>)
        ensures
            opt_text(r) == if is_blank(text@) { None } else { Some(message_text(text@)) },
    {
        if blank(text) {
            None
        } else {
            Some(send_envelope(MsgTypes::Message, Some(String::from_str(text))))
        }
    }

    /// The text that reacts with `symbol` to the message at `index`. The reaction is
    /// shown only once the server echoes it back.
    pub fn react(&self, index: usize, symbol: &str) -> (r: String)
        ensures
            r@ == reaction_text(index, symbol@),
    {
        send_envelope(MsgTypes::Reaction, Some(encode_reaction_payload(index, symbol)))
    }

    /// Records whether the local composition box is non-empty; a `typing` text is sent
    /// only when it becomes non-empty.
    pub fn set_composing(&mut self, composing: bool) -> (r: Option<String>)
        requires
            old(self).wf(),
        ensures
            final(self).wf(),
            (final(self)@, opt_text(r)) == composing_step(old(self)@, composing),
    {
        let was = self.typing;
        self.typing = composing;
        if composing && !was {
            Some(send_envelope(MsgTypes::Typing, None))
        } else {
            None
        }
    }

    /// Drops every typing entry whose deadline has come by `now`.
    pub fn expire_typing(&mut self, now: u64) -> (r: Change)
        requires
            old(self).wf(),
        ensures
            final(self).wf(),
            final(self)@ == (ChatView { typing: pending(old(self)@.typing, now), ..old(self)@ }),
            r == if due(old(self)@.typing, now).len() == 0 { Change::Nothing } else { Change::Typing },
    {
        let gone = self.typing_users.take_due(now);
        assert(gone@.map_values(|x: String| x@).len() == gone@.len());
        if gone.len() == 0 {
            Change::Nothing
        } else {
            Change::Typing
        }
    }

    /// Switches between the light and the dark theme.
    pub fn toggle_dark_mode(&mut self) -> (r: Change)
        requires
            old(self).wf(),
        ensures
            final(self).wf(),
            final(self)@ == (ChatView { dark_mode: !old(self)@.dark_mode, ..old(self)@ }),
            r == Change::Theme,
    {
        self.dark_mode = !self.dark_mode;
        Change::Theme
    }

    /// Handles one event at `now` (milliseconds); an inbound message without a display
    /// time gets the local wall-clock time.
    pub fn update(&mut self, msg: Msg, now: u64) -> (r: Step)
        requires
            old(self).wf(),
        ensures
            final(self).wf(),
            match msg {
                Msg::HandleMsg(t) => r.send is None && exists|c: Seq<char>|
                    (final(self)@, r.change) == inbound(old(self)@, t@, now, c),
                Msg::SubmitMessage(t) => final(self)@ == old(self)@ && r.change == Change::Nothing
                    && opt_text(r.send) == if is_blank(t@) { None } else { Some(message_text(t@)) },
                Msg::ToggleDarkMode => final(self)@ == (ChatView { dark_mode: !old(self)@.dark_mode, ..old(self)@ })
                    && r.change == Change::Theme && r.send is None,
                Msg::AddReaction(i, s) => final(self)@ == old(self)@ && r.change == Change::Nothing
                    && opt_text(r.send) == Some(reaction_text(i, s@)),
                Msg::SetTyping(b) => (final(self)@, opt_text(r.send)) == composing_step(old(self)@, b)
                    && r.change == Change::Nothing,
                Msg::ExpireTyping => final(self)@ == (ChatView { typing: pending(old(self)@.typing, now), ..old(self)@ })
                    && r.send is None
                    && r.change == if due(old(self)@.typing, now).len() == 0 { Change::Nothing } else { Change::Typing },
            },
    {
        match msg {
            Msg::HandleMsg(t) => {
                let clock = local_clock_hm();
                let change = self.handle_inbound(t.as_str(), now, clock);
                Step { change, send: None }
            },
            Msg::SubmitMessage(t) => Step { change: Change::Nothing, send: self.submit(t.as_str()) },
            Msg::ToggleDarkMode => Step { change: self.toggle_dark_mode(), send: None },
            Msg::AddReaction(i, s) => Step {
                change: Change::Nothing,
                send: Some(self.react(i, s.as_str())),
            },
            Msg::SetTyping(b) => Step { change: Change::Nothing, send: self.set_composing(b) },
            Msg::ExpireTyping => Step { change: self.expire_typing(now), send: None },
        }
    }
}

// ---------------------------------------------------------------- laws

/// A `users` envelope replaces the roster by exactly the participants it names, whatever
/// the roster held before; nothing else changes.
pub proof fn lemma_roster_replaced(v: ChatView, text: Seq<char>, now: u64, clock: Seq<char>, names: Seq<Seq<char>>)
    requires
        decode_spec(text) matches Ok(e) && e.kind == MsgTypes::Users && e.items == Some(names),
    ensures
        inbound(v, text, now, clock) == (ChatView { users: roster_of(names), ..v }, Change::Roster),
{
}

/// Two requests to mark the local user as typing send one `typing` text; clearing the
/// flag in between lets the second one send again.
pub proof fn lemma_typing_debounce(v: ChatView)
    ensures
        composing_step(composing_step(v, true).0, true).1 is None,
        composing_step(composing_step(v, false).0, true).1 == Some(typing_text()),
        !v.composing ==> composing_step(v, true).1 == Some(typing_text()),
{
}

/// Arming one participant's typing entry leaves every other participant's deadline as it was.
pub proof fn lemma_typing_independent(s: Seq<(Seq<char>, u64)>, key: Seq<char>, deadline: u64, other: Seq<char>)
    requires
        keys_unique(s),
        other != key,
    ensures
        deadline_of(scheduled(s, key, deadline), other) == deadline_of(s, other),
        deadline_of(scheduled(s, key, deadline), key) == Some(deadline),
{
    if deadline_of(s, key) is None {
        assert(scheduled(s, key, deadline).drop_last() =~= s);
    } else {
        lemma_deadline_map(s, key, deadline, other);
        lemma_deadline_map(s, key, deadline, key);
    }
}

proof fn lemma_deadline_map(s: Seq<(Seq<char>, u64)>, key: Seq<char>, deadline: u64, k: Seq<char>)
    ensures
        deadline_of(rearm_all(s, key, deadline), k)
            == if k == key {
            if deadline_of(s, key) is Some { Some(deadline) } else { None }
        } else {
            deadline_of(s, k)
        },
    decreases s.len(),
{
    if s.len() > 0 {
        assert(rearm_all(s, key, deadline).drop_last() =~= rearm_all(s.drop_last(), key, deadline));
        lemma_deadline_map(s.drop_last(), key, deadline, k);
    }
}

/// An entry stays in the typing set exactly while its own deadline is ahead of the
/// time of expiry.
pub proof fn lemma_typing_expiry(s: Seq<(Seq<char>, u64)>, now: u64, k: Seq<char>)
    requires
        keys_unique(s),
    ensures
        deadline_of(pending(s, now), k) == match deadline_of(s, k) {
            Some(d) => if d > now { Some(d) } else { None },
            None => None,
        },
    decreases s.len(),
{
    if s.len() > 0 {
        lemma_typing_expiry(s.drop_last(), now, k);
        if s.last().1 > now {
            assert(pending(s, now).drop_last() =~= pending(s.drop_last(), now));
        }
        if s.last().0 == k && s.last().1 <= now {
            assert forall|i: int| 0 <= i < s.drop_last().len() implies s.drop_last()[i].0 != k by {
                assert(s[i].0 != s[s.len() - 1].0);
            }
            lemma_deadline_absent(s.drop_last(), k);
            lemma_pending_without(s.drop_last(), now, k);
        }
    }
}

proof fn lemma_pending_without(s: Seq<(Seq<char>, u64)>, now: u64, k: Seq<char>)
    ensures
        deadline_of(s, k) is None ==> deadline_of(pending(s, now), k) is None,
    decreases s.len(),
{
    if s.len() > 0 {
        lemma_pending_without(s.drop_last(), now, k);
        if s.last().1 > now {
            assert(pending(s, now).drop_last() =~= pending(s.drop_last(), now));
        }
    }
}

/// A message that arrives without a display time gets the local clock's; one that
/// carries a display time keeps it.
pub proof fn lemma_timestamp_default(v: ChatView, text: Seq<char>, now: u64, clock: Seq<char>, p: Seq<char>, m: MessageView)
    requires
        decode_spec(text) matches Ok(e) && e.kind == MsgTypes::Message && e.payload == Some(p),
        decode_message_spec(p) == Some(m),
    ensures
        inbound(v, text, now, clock).0.messages == v.messages.push(MessageView {
            timestamp: Some(
                match m.timestamp {
                    Some(t) => t,
                    None => clock,
                },
            ),
            ..m
        }),
        inbound(v, text, now, clock).1 == Change::Messages,
{
}

/// A text that does not decode leaves the whole session as it was.
pub proof fn lemma_undecodable_ignored(v: ChatView, text: Seq<char>, now: u64, clock: Seq<char>)
    requires
        decode_spec(text) is Err,
    ensures
        inbound(v, text, now, clock) == (v, Change::Nothing),
{
}

} // verus!
