//! The rooms in which two participants find each other and exchange session descriptions.
use crate::address::Endpoint;
use crate::session::SdpKind;
use crate::text;
use std::collections::VecDeque;
use vstd::prelude::*;

verus! {

/// How long a participant may stay silent, in nanoseconds.
pub const LIFETIME_NS: u64 = 10_000_000_000;

/// How many participants the server takes.
pub const MEMBERS: usize = 32;

/// How many participants a room takes.
pub const ROOM: usize = 2;

/// How many messages wait for a participant.
pub const INBOX: usize = 8;

/// A participant asks to join a room.
#[derive(Clone, Debug)]
pub struct Join {
    pub room: String,
    pub id: String,
}

/// A participant has joined, and is known by a token from then on.
#[derive(Clone, Debug)]
pub struct Joined {
    pub token: String,
}

/// A session description.
#[derive(Clone, Debug)]
pub struct Description {
    pub kind: SdpKind,
    pub sdp: String,
}

/// Who else is in the room, and what has come from there.
#[derive(Clone, Debug)]
pub struct Poll {
    pub peer: Option<String>,
    pub messages: Vec<Description>,
}

/// Why a request is refused.
#[derive(Clone, Copy, Debug, PartialEq, Eq, Structural)]
pub enum ApiError {
    BadName,
    IdTaken,
    RoomFull,
    ServerFull,
    SessionGone,
    UnknownSession,
    PeerLeft,
    QueueFull,
}

impl ApiError {
    /// The status code of the answer.
    pub open spec fn code(self) -> u16 {
        match self {
            ApiError::BadName => 400,
            ApiError::SessionGone | ApiError::UnknownSession => 404,
            ApiError::IdTaken | ApiError::RoomFull | ApiError::PeerLeft => 409,
            ApiError::QueueFull => 429,
            ApiError::ServerFull => 503,
        }
    }

    /// The status code of the answer.
    pub fn status(self) -> (r: u16)
        ensures
            r == self.code(),
    {
        match self {
            ApiError::BadName => 400,
            ApiError::SessionGone => 404,
            ApiError::UnknownSession => 404,
            ApiError::IdTaken => 409,
            ApiError::RoomFull => 409,
            ApiError::PeerLeft => 409,
            ApiError::QueueFull => 429,
            ApiError::ServerFull => 503,
        }
    }

    /// The error in words.
    pub fn message(self) -> (r: &'static str)
        ensures
            r@ == (match self {
                ApiError::BadName => "room/id must be 1–48 letters, digits, - or _"@,
                ApiError::IdTaken => "instance id already joined"@,
                ApiError::RoomFull => "room already has two participants"@,
                ApiError::ServerFull => "local server is full"@,
                ApiError::SessionGone => "session expired or left"@,
                ApiError::UnknownSession => "unknown session"@,
                ApiError::PeerLeft => "peer has left"@,
                ApiError::QueueFull => "signal queue full"@,
            }),
    {
        match self {
            ApiError::BadName => "room/id must be 1–48 letters, digits, - or _",
            ApiError::IdTaken => "instance id already joined",
            ApiError::RoomFull => "room already has two participants",
            ApiError::ServerFull => "local server is full",
            ApiError::SessionGone => "session expired or left",
            ApiError::UnknownSession => "unknown session",
            ApiError::PeerLeft => "peer has left",
            ApiError::QueueFull => "signal queue full",
        }
    }
}

/// Whether a character may stand in a name.
pub open spec fn is_plain(c: char) -> bool {
    ('a' <= c && c <= 'z') || ('A' <= c && c <= 'Z') || ('0' <= c && c <= '9') || c == '-' || c
        == '_'
}

/// Whether a text may name a room or a participant: 1 to 48 letters, digits, `-` or `_`.
pub open spec fn is_name(name: Seq<char>) -> bool {
    1 <= name.len() <= 48 && forall|i: int| 0 <= i < name.len() ==> is_plain(#[trigger] name[i])
}

/// Whether a text may name a room or a participant.
pub fn valid_name(name: &str) -> (r: bool)
    ensures
        r == is_name(name@),
{
    let list = text::characters(name);
    if list.len() == 0 || list.len() > 48 {
        return false;
    }
    let mut i: usize = 0;
    while i < list.len()
        invariant
            i <= list@.len(),
            list@ == name@,
            forall|k: int| 0 <= k < i ==> is_plain(#[trigger] list@[k]),
        decreases list@.len() - i,
    {
        let c = list[i];
        let plain = ('a' <= c && c <= 'z') || ('A' <= c && c <= 'Z') || ('0' <= c && c <= '9') || c
            == '-' || c == '_';
        if !plain {
            assert(!is_plain(name@[i as int]));
            return false;
        }
        i += 1;
    }
    true
}

/// A participant in a room.
pub struct Member {
    pub token: String,
    pub room: String,
    pub id: String,
    pub last_seen: u64,
    pub inbox: VecDeque<Description>,
}

/// What is known of a participant.
#[verifier::ext_equal]
pub struct MemberModel {
    pub token: Seq<char>,
    pub room: Seq<char>,
    pub id: Seq<char>,
    pub last_seen: u64,
    pub inbox: Seq<Description>,
}

impl View for Member {
    type V = MemberModel;

    open spec fn view(&self) -> MemberModel {
        MemberModel {
            token: self.token@,
            room: self.room@,
            id: self.id@,
            last_seen: self.last_seen,
            inbox: self.inbox@,
        }
    }
}

/// What is known of a list of participants.
pub open spec fn models(list: Seq<Member>) -> Seq<MemberModel> {
    list.map_values(|member: Member| member@)
}

/// Whether a participant has been heard of within its lifetime.
pub open spec fn is_alive(now: u64) -> spec_fn(MemberModel) -> bool {
    |member: MemberModel| now - member.last_seen < LIFETIME_NS
}

/// The participants that have been heard of within their lifetime.
pub open spec fn alive(list: Seq<MemberModel>, now: u64) -> Seq<MemberModel> {
    list.filter(is_alive(now))
}

/// How many participants are in a room.
pub open spec fn occupancy(list: Seq<MemberModel>, room: Seq<char>) -> nat
    decreases list.len(),
{
    if list.len() == 0 {
        0
    } else if list.last().room == room {
        occupancy(list.drop_last(), room) + 1
    } else {
        occupancy(list.drop_last(), room)
    }
}

/// Whether a participant of the given name is in a room.
pub open spec fn has_id(list: Seq<MemberModel>, room: Seq<char>, id: Seq<char>) -> bool {
    exists|i: int|
        0 <= i < list.len() && (#[trigger] list[i]).room == room && list[i].id == id
}

/// Whether a token is that of a participant.
pub open spec fn is_holder(list: Seq<MemberModel>, token: Seq<char>, i: int) -> bool {
    0 <= i < list.len() && list[i].token == token
}

/// Whether a token is in use.
pub open spec fn has_token(list: Seq<MemberModel>, token: Seq<char>) -> bool {
    exists|i: int| is_holder(list, token, i)
}

/// Whether a participant is the other one in a room.
pub open spec fn is_other(list: Seq<MemberModel>, room: Seq<char>, id: Seq<char>, i: int) -> bool {
    0 <= i < list.len() && list[i].room == room && list[i].id != id
}

/// What holds of the rooms at all times: tokens tell participants apart, and so do the names
/// within a room; rooms, inboxes and the server hold no more than they may.
pub open spec fn sound(list: Seq<MemberModel>) -> bool {
    &&& list.len() <= MEMBERS
    &&& forall|i: int, j: int|
        0 <= i < j < list.len() ==> (#[trigger] list[i]).token != (#[trigger] list[j]).token
    &&& forall|i: int, j: int|
        0 <= i < j < list.len() && (#[trigger] list[i]).room == (#[trigger] list[j]).room
            ==> list[i].id != list[j].id
    &&& forall|room: Seq<char>| #[trigger] occupancy(list, room) <= ROOM
    &&& forall|i: int|
        0 <= i < list.len() ==> is_name((#[trigger] list[i]).room) && is_name(list[i].id)
            && list[i].inbox.len() <= INBOX
}

/// Why a request to join is refused, from what is tested first to what is tested last.
pub open spec fn refusal(list: Seq<MemberModel>, room: Seq<char>, id: Seq<char>) -> Option<
    ApiError,
> {
    if !is_name(room) || !is_name(id) {
        Some(ApiError::BadName)
    } else if has_id(list, room, id) {
        Some(ApiError::IdTaken)
    } else if occupancy(list, room) >= ROOM {
        Some(ApiError::RoomFull)
    } else if list.len() >= MEMBERS {
        Some(ApiError::ServerFull)
    } else {
        None
    }
}

/// The participants without the one that holds a token.
pub open spec fn without(list: Seq<MemberModel>, token: Seq<char>) -> Seq<MemberModel> {
    list.filter(not_holding(token))
}

/// Whether a participant holds another token.
pub open spec fn not_holding(token: Seq<char>) -> spec_fn(MemberModel) -> bool {
    |member: MemberModel| member.token != token
}

/// A token: hyphenated lower case hexadecimal digits, of which two places tell the version and the
/// variant.
pub open spec fn is_token(text: Seq<char>) -> bool {
    &&& text.len() == 36
    &&& text[14] == '4'
    &&& text[19] == '8' || text[19] == '9' || text[19] == 'a' || text[19] == 'b'
    &&& forall|i: int|
        0 <= i < 36 ==> if i == 8 || i == 13 || i == 18 || i == 23 {
            #[trigger] text[i] == '-'
        } else {
            ('0' <= text[i] && text[i] <= '9') || ('a' <= text[i] && text[i] <= 'f')
        }
}

/// `uuid::Uuid::new_v4` in its hyphenated form. The digits are random, apart from the version and the
/// variant; that they differ from those of other calls is not claimed.
#[verifier::external_body]
fn new_token() -> (r: String)
    ensures
        is_token(r@),
{
    uuid::Uuid::new_v4().to_string()
}

/// A list that was left after others left.
spec fn thinned(before: Seq<MemberModel>, after: Seq<MemberModel>) -> bool {
    &&& sound(before) ==> sound(after)
    &&& after.len() <= before.len()
    &&& forall|room: Seq<char>| #[trigger] occupancy(after, room) <= occupancy(before, room)
    &&& forall|room: Seq<char>, id: Seq<char>| #[trigger]
        has_id(after, room, id) ==> has_id(before, room, id)
}

proof fn lemma_occupancy_remove(list: Seq<MemberModel>, i: int, room: Seq<char>)
    requires
        0 <= i < list.len(),
    ensures
        occupancy(list, room) == occupancy(list.remove(i), room) + (if list[i].room == room {
            1int
        } else {
            0
        }),
    decreases list.len(),
{
    if i == list.len() - 1 {
        assert(list.remove(i) =~= list.drop_last());
    } else {
        lemma_occupancy_remove(list.drop_last(), i, room);
        assert(list.remove(i).drop_last() =~= list.drop_last().remove(i));
        assert(list.remove(i).last() == list.last());
    }
}

/// When one leaves, the rooms stay sound.
proof fn lemma_remove(list: Seq<MemberModel>, i: int)
    requires
        0 <= i < list.len(),
    ensures
        thinned(list, list.remove(i)),
{
    let after = list.remove(i);
    assert forall|room: Seq<char>| #[trigger] occupancy(after, room) <= occupancy(list, room) by {
        lemma_occupancy_remove(list, i, room);
    }
    assert forall|k: int| 0 <= k < after.len() implies #[trigger] after[k] == list[if k < i {
        k
    } else {
        k + 1
    }] by {}
    assert forall|room: Seq<char>, id: Seq<char>| #[trigger] has_id(after, room, id) implies has_id(
        list,
        room,
        id,
    ) by {
        let k = choose|k: int|
            0 <= k < after.len() && (#[trigger] after[k]).room == room && after[k].id == id;
        let j = if k < i {
            k
        } else {
            k + 1
        };
        assert(list[j].room == room && list[j].id == id);
    }
}

/// One participant more in front of a filter.
proof fn lemma_filter(
    list: Seq<MemberModel>,
    wanted: spec_fn(MemberModel) -> bool,
    i: int,
)
    requires
        0 <= i < list.len(),
    ensures
        list.take(i + 1).filter(wanted) == (if wanted(list[i]) {
            list.take(i).filter(wanted).push(list[i])
        } else {
            list.take(i).filter(wanted)
        }),
{
    reveal(Seq::filter);
    assert(list.take(i + 1).drop_last() =~= list.take(i));
}

/// The participants of all rooms.
pub struct Rooms {
    pub members: Vec<Member>,
}

impl View for Rooms {
    type V = Seq<MemberModel>;

    open spec fn view(&self) -> Seq<MemberModel> {
        models(self.members@)
    }
}

impl Rooms {
    /// No participants.
    pub fn new() -> (r: Self)
        ensures
            r@ == Seq::<MemberModel>::empty(),
            sound(r@),
    {
        let r = Rooms { members: Vec::new() };
        assert(r@ =~= Seq::<MemberModel>::empty());
        r
    }

    /// Forgets the participants that have not been heard of for too long.
    pub fn expire(&mut self, now: u64)
        requires
            sound(old(self)@),
        ensures
            final(self)@ == alive(old(self)@, now),
            sound(final(self)@),
    {
        let ghost start = self@;
        let ghost mut seen: int = 0;
        let mut i: usize = 0;
        proof {
            reveal(Seq::filter);
            assert(start.take(0) =~= seq![]);
            assert(self@ =~= start.take(0).filter(is_alive(now)) + start.skip(0));
        }
        while i < self.members.len()
            invariant
                start == old(self)@,
                sound(self@),
                0 <= seen <= start.len(),
                i == start.take(seen).filter(is_alive(now)).len(),
                self@ == start.take(seen).filter(is_alive(now)) + start.skip(seen),
            decreases start.len() - seen,
        {
            let ghost before = self@;
            proof {
                assert(self.members@[i as int]@ == before[i as int]);
                assert(before[i as int] == start[seen]);
                lemma_filter(start, is_alive(now), seen);
            }
            let last_seen: u64 = self.members[i].last_seen;
            if last_seen <= now && now - last_seen >= LIFETIME_NS {
                proof {
                    lemma_remove(before, i as int);
                }
                let _ = self.members.remove(i);
                assert(self@ =~= before.remove(i as int));
            } else {
                i += 1;
            }
            proof {
                seen = seen + 1;
                assert(self@ =~= start.take(seen).filter(is_alive(now)) + start.skip(seen));
            }
        }
        proof {
            if seen < start.len() {
                assert(start.skip(seen).len() > 0);
            }
            assert(start.take(seen) =~= start);
            assert(start.skip(seen) =~= seq![]);
            assert(self@ =~= alive(start, now));
        }
    }

    /// Forgets the participant that holds a token.
    fn forget(&mut self, token: &str)
        ensures
            final(self)@ == without(old(self)@, token@),
            thinned(old(self)@, final(self)@),
    {
        let ghost start = self@;
        let ghost mut seen: int = 0;
        let mut i: usize = 0;
        proof {
            reveal(Seq::filter);
            assert(start.take(0) =~= seq![]);
            assert(self@ =~= start.take(0).filter(not_holding(token@)) + start.skip(0));
        }
        while i < self.members.len()
            invariant
                start == old(self)@,
                thinned(start, self@),
                0 <= seen <= start.len(),
                i == start.take(seen).filter(not_holding(token@)).len(),
                self@ == start.take(seen).filter(not_holding(token@)) + start.skip(seen),
            decreases start.len() - seen,
        {
            let ghost before = self@;
            proof {
                assert(self.members@[i as int]@ == before[i as int]);
                assert(before[i as int] == start[seen]);
                lemma_filter(start, not_holding(token@), seen);
            }
            if text::same_text(self.members[i].token.as_str(), token) {
                proof {
                    lemma_remove(before, i as int);
                }
                let _ = self.members.remove(i);
                assert(self@ =~= before.remove(i as int));
            } else {
                i += 1;
            }
            proof {
                seen = seen + 1;
                assert(self@ =~= start.take(seen).filter(not_holding(token@)) + start.skip(seen));
            }
        }
        proof {
            if seen < start.len() {
                assert(start.skip(seen).len() > 0);
            }
            assert(start.take(seen) =~= start);
            assert(start.skip(seen) =~= seq![]);
            assert(self@ =~= without(start, token@));
        }
    }
}

/// One more participant leaves the rooms sound.
proof fn lemma_push(list: Seq<MemberModel>, member: MemberModel)
    requires
        sound(list),
        list.len() < MEMBERS,
        !has_token(list, member.token),
        !has_id(list, member.room, member.id),
        occupancy(list, member.room) < ROOM,
        is_name(member.room),
        is_name(member.id),
        member.inbox.len() <= INBOX,
    ensures
        sound(list.push(member)),
{
    let after = list.push(member);
    assert(after.drop_last() =~= list);
    assert forall|i: int, j: int| 0 <= i < j < after.len() implies (#[trigger] after[i]).token != (
    #[trigger] after[j]).token by {
        if j == list.len() {
            assert(!is_holder(list, member.token, i));
        }
    }
    assert forall|room: Seq<char>| #[trigger] occupancy(after, room) <= ROOM by {
        assert(occupancy(list, room) <= ROOM);
    }
}

/// What is left without the holder of a token has no holder.
proof fn lemma_without(list: Seq<MemberModel>, token: Seq<char>)
    ensures
        !has_token(without(list, token), token),
    decreases list.len(),
{
    reveal(Seq::filter);
    if list.len() > 0 {
        lemma_without(list.drop_last(), token);
        let rest = without(list.drop_last(), token);
        let after = without(list, token);
        assert forall|i: int| !is_holder(after, token, i) by {
            assert(!is_holder(rest, token, i));
        }
    }
}

/// Another time or another inbox leaves the rooms sound.
proof fn lemma_update(list: Seq<MemberModel>, i: int, member: MemberModel)
    requires
        sound(list),
        0 <= i < list.len(),
        member.token == list[i].token,
        member.room == list[i].room,
        member.id == list[i].id,
        member.inbox.len() <= INBOX,
    ensures
        sound(list.update(i, member)),
{
    let after = list.update(i, member);
    assert forall|k: int| 0 <= k < after.len() implies (#[trigger] after[k]).token == list[k].token
        && after[k].room == list[k].room && after[k].id == list[k].id by {}
    assert forall|room: Seq<char>| #[trigger] occupancy(after, room) <= ROOM by {
        lemma_occupancy_update(list, i, member, room);
        assert(occupancy(list, room) <= ROOM);
    }
}

proof fn lemma_occupancy_update(
    list: Seq<MemberModel>,
    i: int,
    member: MemberModel,
    room: Seq<char>,
)
    requires
        0 <= i < list.len(),
        member.room == list[i].room,
    ensures
        occupancy(list.update(i, member), room) == occupancy(list, room),
    decreases list.len(),
{
    let after = list.update(i, member);
    if i == list.len() - 1 {
        assert(after.drop_last() =~= list.drop_last());
    } else {
        lemma_occupancy_update(list.drop_last(), i, member, room);
        assert(after.drop_last() =~= list.drop_last().update(i, member));
    }
}

/// Takes all messages out of an inbox.
fn drain(inbox: &mut VecDeque<Description>) -> (r: Vec<Description>)
    ensures
        r@ == old(inbox)@,
        final(inbox)@ == Seq::<Description>::empty(),
{
    let mut r: Vec<Description> = Vec::new();
    while inbox.len() > 0
        invariant
            r@ + inbox@ == old(inbox)@,
        decreases inbox@.len(),
    {
        let ghost before = inbox@;
        let ghost taken = r@;
        if let Some(message) = inbox.pop_front() {
            r.push(message);
        }
        assert(r@ + inbox@ =~= taken + before);
    }
    assert(r@ =~= old(inbox)@);
    assert(inbox@ =~= Seq::<Description>::empty());
    r
}

impl Rooms {
    /// Whether a participant of the given name is in a room.
    fn knows(&self, room: &str, id: &str) -> (r: bool)
        ensures
            r == has_id(self@, room@, id@),
    {
        let mut i: usize = 0;
        while i < self.members.len()
            invariant
                i <= self.members@.len(),
                forall|k: int|
                    0 <= k < i ==> !((#[trigger] self@[k]).room == room@ && self@[k].id == id@),
            decreases self.members@.len() - i,
        {
            assert(self@[i as int] == self.members@[i as int]@);
            if text::same_text(self.members[i].room.as_str(), room) && text::same_text(
                self.members[i].id.as_str(),
                id,
            ) {
                return true;
            }
            i += 1;
        }
        false
    }

    /// How many participants are in a room.
    fn count(&self, room: &str) -> (r: usize)
        ensures
            r == occupancy(self@, room@),
    {
        let mut count: usize = 0;
        let mut i: usize = 0;
        while i < self.members.len()
            invariant
                i <= self.members@.len(),
                count <= i,
                count == occupancy(self@.take(i as int), room@),
            decreases self.members@.len() - i,
        {
            assert(self@[i as int] == self.members@[i as int]@);
            assert(self@.take(i + 1).drop_last() =~= self@.take(i as int));
            if text::same_text(self.members[i].room.as_str(), room) {
                count += 1;
            }
            i += 1;
        }
        assert(self@.take(i as int) =~= self@);
        count
    }

    /// Where the participant stands that holds a token.
    fn find(&self, token: &str) -> (r: Option<usize>)
        ensures
            match r {
                Some(i) => is_holder(self@, token@, i as int),
                None => !has_token(self@, token@),
            },
    {
        let mut i: usize = 0;
        while i < self.members.len()
            invariant
                i <= self.members@.len(),
                forall|k: int| 0 <= k < i ==> !#[trigger] is_holder(self@, token@, k),
            decreases self.members@.len() - i,
        {
            assert(self@[i as int] == self.members@[i as int]@);
            if text::same_text(self.members[i].token.as_str(), token) {
                assert(is_holder(self@, token@, i as int));
                return Some(i);
            }
            i += 1;
        }
        None
    }

    /// Where the other participant in a room stands.
    fn other(&self, me: usize) -> (r: Option<usize>)
        requires
            me < self@.len(),
        ensures
            match r {
                Some(i) => is_other(self@, self@[me as int].room, self@[me as int].id, i as int),
                None => forall|k: int|
                    !#[trigger] is_other(self@, self@[me as int].room, self@[me as int].id, k),
            },
    {
        assert(self@[me as int] == self.members@[me as int]@);
        let room = self.members[me].room.as_str();
        let id = self.members[me].id.as_str();
        let mut i: usize = 0;
        while i < self.members.len()
            invariant
                i <= self.members@.len(),
                room@ == self@[me as int].room,
                id@ == self@[me as int].id,
                forall|k: int| 0 <= k < i ==> !#[trigger] is_other(self@, room@, id@, k),
            decreases self.members@.len() - i,
        {
            assert(self@[i as int] == self.members@[i as int]@);
            if text::same_text(self.members[i].room.as_str(), room) && !text::same_text(
                self.members[i].id.as_str(),
                id,
            ) {
                return Some(i);
            }
            i += 1;
        }
        None
    }

    /// Lets a participant join a room under a token that was made for it.
    pub fn join_with_token(&mut self, request: Join, token: String, now: u64) -> (r: Result<
        Joined,
        ApiError,
    >)
        requires
            sound(old(self)@),
        ensures
            sound(final(self)@),
            final(self)@ == served(
                old(self)@,
                Request::Join(request.room@, request.id@, token@, now),
            ),
            ({
                let living = alive(old(self)@, now);
                match refusal(living, request.room@, request.id@) {
                    Some(error) => r == Err::<Joined, _>(error) && final(self)@ == living,
                    None => {
                        &&& r matches Ok(joined)
                        &&& joined.token@ == token@
                        &&& final(self)@ == without(living, token@).push(
                            MemberModel {
                                token: token@,
                                room: request.room@,
                                id: request.id@,
                                last_seen: now,
                                inbox: seq![],
                            },
                        )
                    },
                }
            }),
    {
        self.expire(now);
        if !valid_name(request.room.as_str()) || !valid_name(request.id.as_str()) {
            return Err(ApiError::BadName);
        }
        if self.knows(request.room.as_str(), request.id.as_str()) {
            return Err(ApiError::IdTaken);
        }
        if self.count(request.room.as_str()) >= ROOM {
            return Err(ApiError::RoomFull);
        }
        if self.members.len() >= MEMBERS {
            return Err(ApiError::ServerFull);
        }
        let ghost living = self@;
        self.forget(token.as_str());
        let answer = String::from_str(token.as_str());
        let member = Member {
            token,
            room: request.room,
            id: request.id,
            last_seen: now,
            inbox: VecDeque::new(),
        };
        proof {
            lemma_without(living, token@);
            assert(member@.inbox =~= seq![]);
            assert(occupancy(self@, member@.room) <= occupancy(living, member@.room));
            assert(has_id(self@, member@.room, member@.id) ==> has_id(
                living,
                member@.room,
                member@.id,
            ));
            lemma_push(self@, member@);
        }
        let ghost rest = self@;
        self.members.push(member);
        assert(self@ =~= rest.push(member@));
        Ok(Joined { token: answer })
    }

    /// Lets a participant join a room, under a fresh token.
    pub fn join(&mut self, request: Join, now: u64) -> (r: Result<Joined, ApiError>)
        requires
            sound(old(self)@),
        ensures
            sound(final(self)@),
            ({
                let living = alive(old(self)@, now);
                match refusal(living, request.room@, request.id@) {
                    Some(error) => r == Err::<Joined, _>(error) && final(self)@ == living,
                    None => {
                        &&& r matches Ok(joined)
                        &&& is_token(joined.token@)
                        &&& final(self)@ == without(living, joined.token@).push(
                            MemberModel {
                                token: joined.token@,
                                room: request.room@,
                                id: request.id@,
                                last_seen: now,
                                inbox: seq![],
                            },
                        )
                    },
                }
            }),
    {
        let token = new_token();
        self.join_with_token(request, token, now)
    }

    /// Answers a participant that asks who else is in its room and what has come from there. What
    /// has come is handed out once.
    pub fn poll(&mut self, token: &str, now: u64) -> (r: Result<Poll, ApiError>)
        requires
            sound(old(self)@),
        ensures
            sound(final(self)@),
            final(self)@ == served(old(self)@, Request::Poll(token@, now)),
            ({
                let living = alive(old(self)@, now);
                match r {
                    Err(error) => {
                        &&& !has_token(living, token@)
                        &&& error == ApiError::SessionGone
                        &&& final(self)@ == living
                    },
                    Ok(poll) => exists|i: int|
                        {
                            &&& #[trigger] is_holder(living, token@, i)
                            &&& final(self)@ == polled(living, i, now)
                            &&& poll.messages@ == living[i].inbox
                            &&& match poll.peer {
                                Some(peer) => exists|j: int| #[trigger]
                                    is_other(living, living[i].room, living[i].id, j) && peer@
                                        == living[j].id,
                                None => forall|j: int|
                                    !#[trigger] is_other(living, living[i].room, living[i].id, j),
                            }
                        },
                }
            }),
    {
        self.expire(now);
        let ghost living = self@;
        let me: usize = match self.find(token) {
            Some(me) => me,
            None => {
                return Err(ApiError::SessionGone);
            },
        };
        let peer = match self.other(me) {
            Some(other) => {
                assert(self@[other as int] == self.members@[other as int]@);
                assert(is_other(living, living[me as int].room, living[me as int].id, other as int));
                Some(String::from_str(self.members[other].id.as_str()))
            },
            None => None,
        };
        proof {
            assert(is_holder(living, token@, place(living, token@)));
            law_token_is_unique(living, token@, me as int, place(living, token@));
        }
        assert(self@[me as int] == self.members@[me as int]@);
        let messages = drain(&mut self.members[me].inbox);
        self.members[me].last_seen = now;
        proof {
            assert(self@ =~= polled(living, me as int, now));
            lemma_update(living, me as int, polled(living, me as int, now)[me as int]);
        }
        Ok(Poll { peer, messages })
    }

    /// Passes a session description on to the other participant in the room.
    pub fn signal(&mut self, token: &str, message: Description, now: u64) -> (r: Result<
        (),
        ApiError,
    >)
        requires
            sound(old(self)@),
        ensures
            sound(final(self)@),
            final(self)@ == served(old(self)@, Request::Signal(token@, message, now)),
            r is Ok <==> passes(alive(old(self)@, now), token@),
            ({
                let living = alive(old(self)@, now);
                match r {
                    Err(ApiError::UnknownSession) => !has_token(living, token@) && final(self)@
                        == living,
                    Err(ApiError::PeerLeft) => final(self)@ == living && exists|i: int|
                        #[trigger] is_holder(living, token@, i) && forall|j: int|
                            !#[trigger] is_other(living, living[i].room, living[i].id, j),
                    Err(ApiError::QueueFull) => final(self)@ == living && exists|i: int, j: int|
                        #[trigger] is_holder(living, token@, i) && #[trigger] is_other(
                            living,
                            living[i].room,
                            living[i].id,
                            j,
                        ) && living[j].inbox.len() >= INBOX,
                    Err(_) => false,
                    Ok(()) => exists|i: int, j: int|
                        #[trigger] is_holder(living, token@, i) && #[trigger] is_other(
                            living,
                            living[i].room,
                            living[i].id,
                            j,
                        ) && living[j].inbox.len() < INBOX && final(self)@ == signalled(
                            living,
                            j,
                            message,
                        ),
                }
            }),
    {
        self.expire(now);
        let ghost living = self@;
        let me: usize = match self.find(token) {
            Some(me) => me,
            None => {
                return Err(ApiError::UnknownSession);
            },
        };
        proof {
            assert(is_holder(living, token@, place(living, token@)));
            law_token_is_unique(living, token@, me as int, place(living, token@));
        }
        let other: usize = match self.other(me) {
            Some(other) => other,
            None => {
                return Err(ApiError::PeerLeft);
            },
        };
        assert(is_holder(living, token@, me as int));
        assert(is_other(living, living[me as int].room, living[me as int].id, other as int));
        proof {
            let place = other_place(living, me as int);
            assert(is_other(living, living[me as int].room, living[me as int].id, place));
            law_other_is_unique(living, me as int, other as int, place);
        }
        assert(self@[other as int] == self.members@[other as int]@);
        if self.members[other].inbox.len() >= INBOX {
            return Err(ApiError::QueueFull);
        }
        self.members[other].inbox.push_back(message);
        proof {
            assert(self@ =~= signalled(living, other as int, message));
            lemma_update(
                living,
                other as int,
                signalled(living, other as int, message)[other as int],
            );
        }
        Ok(())
    }

    /// Lets a participant leave; a token that nobody holds changes nothing.
    pub fn leave(&mut self, token: &str)
        requires
            sound(old(self)@),
        ensures
            sound(final(self)@),
            final(self)@ == served(old(self)@, Request::Leave(token@)),
            final(self)@ == without(old(self)@, token@),
    {
        self.forget(token);
    }
}

/// The rooms after a participant was answered.
pub open spec fn polled(list: Seq<MemberModel>, i: int, now: u64) -> Seq<MemberModel> {
    list.update(i, MemberModel { last_seen: now, inbox: seq![], ..list[i] })
}

/// The rooms after a message was put into an inbox.
pub open spec fn signalled(list: Seq<MemberModel>, i: int, message: Description) -> Seq<
    MemberModel,
> {
    list.update(i, MemberModel { inbox: list[i].inbox.push(message), ..list[i] })
}

/// A third participant is refused.
pub proof fn law_room_takes_two(list: Seq<MemberModel>, room: Seq<char>, id: Seq<char>)
    requires
        occupancy(list, room) >= ROOM,
    ensures
        refusal(list, room, id) is Some,
        is_name(room) && is_name(id) && !has_id(list, room, id) ==> refusal(list, room, id) == Some(
            ApiError::RoomFull,
        ),
{
}

/// Participants in a room are counted.
proof fn lemma_occupancy_of(list: Seq<MemberModel>, i: int)
    requires
        0 <= i < list.len(),
    ensures
        occupancy(list, list[i].room) >= 1,
{
    lemma_occupancy_remove(list, i, list[i].room);
}

/// There is at most one other participant in a room.
pub proof fn law_other_is_unique(list: Seq<MemberModel>, me: int, i: int, j: int)
    requires
        sound(list),
        0 <= me < list.len(),
        is_other(list, list[me].room, list[me].id, i),
        is_other(list, list[me].room, list[me].id, j),
    ensures
        i == j,
{
    if i != j {
        let room = list[me].room;
        let late = if i < j {
            j
        } else {
            i
        };
        let early = if i < j {
            i
        } else {
            j
        };
        let first = list.remove(late);
        lemma_occupancy_remove(list, late, room);
        let own = if me < late {
            me
        } else {
            me - 1
        };
        assert(first[early] == list[early]);
        assert(first[own] == list[me]);
        let second = first.remove(early);
        lemma_occupancy_remove(first, early, room);
        let left = if own < early {
            own
        } else {
            own - 1
        };
        assert(second[left] == list[me]);
        lemma_occupancy_of(second, left);
        assert(occupancy(list, room) <= ROOM);
    }
}

/// A token is that of one participant at most.
pub proof fn law_token_is_unique(list: Seq<MemberModel>, token: Seq<char>, i: int, j: int)
    requires
        sound(list),
        is_holder(list, token, i),
        is_holder(list, token, j),
    ensures
        i == j,
{
    if i < j {
        assert(list[i].token != list[j].token);
    } else if j < i {
        assert(list[j].token != list[i].token);
    }
}

/// The two participants of a room are each other's other one.
pub proof fn law_peers_see_each_other(list: Seq<MemberModel>, i: int, j: int)
    requires
        0 <= i < list.len(),
        is_other(list, list[i].room, list[i].id, j),
    ensures
        is_other(list, list[j].room, list[j].id, i),
{
}

/// A message that is passed on reaches the other participant: if that participant asks within its
/// lifetime, it is answered with the messages that came before, in their order, and this one last.
/// It is handed out once, and nobody else is handed it.
pub proof fn law_message_is_delivered(
    list: Seq<MemberModel>,
    i: int,
    j: int,
    message: Description,
    now: u64,
)
    requires
        sound(list),
        0 <= i < list.len(),
        is_other(list, list[i].room, list[i].id, j),
        list[j].inbox.len() < INBOX,
        now - list[j].last_seen < LIFETIME_NS,
    ensures
        ({
            let after = signalled(list, j, message);
            let living = alive(after, now);
            &&& sound(after)
            &&& has_token(living, list[j].token)
            &&& forall|k: int| #[trigger]
                is_holder(living, list[j].token, k) ==> living[k].inbox == list[j].inbox.push(
                    message,
                ) && polled(living, k, now)[k].inbox == Seq::<Description>::empty()
            &&& forall|k: int| 0 <= k < list.len() && k != j ==> #[trigger] after[k] == list[k]
        }),
{
    let after = signalled(list, j, message);
    let living = alive(after, now);
    lemma_update(list, j, after[j]);
    assert(after.contains(after[j]));
    law_silence_expires(after, now, after[j]);
    let found = choose|k: int| 0 <= k < living.len() && living[k] == after[j];
    assert(is_holder(living, list[j].token, found));
    assert forall|k: int| #[trigger] is_holder(living, list[j].token, k) implies living[k].inbox
        == list[j].inbox.push(message) && polled(living, k, now)[k].inbox == Seq::<
        Description,
    >::empty() by {
        assert(living.contains(living[k]));
        law_silence_expires(after, now, living[k]);
        let place = choose|p: int| 0 <= p < after.len() && after[p] == living[k];
        law_token_is_unique(after, list[j].token, place, j);
    }
}

/// Where the participant stands that holds a token.
pub open spec fn place(list: Seq<MemberModel>, token: Seq<char>) -> int {
    choose|i: int| is_holder(list, token, i)
}

/// The rooms after messages were passed on, each at its time, to the participant with a token.
pub open spec fn passed_on(
    list: Seq<MemberModel>,
    token: Seq<char>,
    messages: Seq<Description>,
    times: Seq<u64>,
) -> Seq<MemberModel>
    decreases messages.len(),
{
    if messages.len() == 0 {
        list
    } else {
        let before = passed_on(list, token, messages.drop_last(), times.drop_last());
        let living = alive(before, times.last());
        signalled(living, place(living, token), messages.last())
    }
}

/// Whether both participants of a room are there, the second with the given messages.
pub open spec fn both_there(
    list: Seq<MemberModel>,
    first: MemberModel,
    second: MemberModel,
    messages: Seq<Description>,
) -> bool {
    list.contains(first) && list.contains(MemberModel { inbox: messages, ..second })
}

/// A filter lets some leave.
proof fn lemma_filter_thins(list: Seq<MemberModel>, wanted: spec_fn(MemberModel) -> bool)
    ensures
        thinned(list, list.filter(wanted)),
{
    lemma_filter_thins_front(list, wanted, list.len() as int);
    assert(list.take(list.len() as int) =~= list);
    assert(list.filter(wanted) + list.skip(list.len() as int) =~= list.filter(wanted));
}

proof fn lemma_filter_thins_front(
    list: Seq<MemberModel>,
    wanted: spec_fn(MemberModel) -> bool,
    count: int,
)
    requires
        0 <= count <= list.len(),
    ensures
        thinned(list, list.take(count).filter(wanted) + list.skip(count)),
    decreases count,
{
    reveal(Seq::filter);
    if count == 0 {
        assert(list.take(0) =~= seq![]);
        assert(list.take(0).filter(wanted) + list.skip(0) =~= list);
    } else {
        lemma_filter_thins_front(list, wanted, count - 1);
        lemma_filter(list, wanted, count - 1);
        let kept = list.take(count - 1).filter(wanted);
        let before = kept + list.skip(count - 1);
        let after = list.take(count).filter(wanted) + list.skip(count);
        assert(before[kept.len() as int] == list[count - 1]);
        if wanted(list[count - 1]) {
            assert(after =~= before);
        } else {
            lemma_remove(before, kept.len() as int);
            assert(after =~= before.remove(kept.len() as int));
            assert forall|room: Seq<char>| #[trigger] occupancy(after, room) <= occupancy(
                list,
                room,
            ) by {
                assert(occupancy(after, room) <= occupancy(before, room));
            }
            assert forall|room: Seq<char>, id: Seq<char>| #[trigger]
                has_id(after, room, id) implies has_id(list, room, id) by {
                assert(has_id(before, room, id));
            }
        }
    }
}

/// Who holds a token is found by it.
proof fn lemma_place(list: Seq<MemberModel>, member: MemberModel)
    requires
        sound(list),
        list.contains(member),
    ensures
        is_holder(list, member.token, place(list, member.token)),
        list[place(list, member.token)] == member,
        forall|k: int| #[trigger] is_holder(list, member.token, k) ==> list[k] == member,
{
    let k = choose|k: int| 0 <= k < list.len() && list[k] == member;
    assert(is_holder(list, member.token, k));
    assert forall|j: int| #[trigger] is_holder(list, member.token, j) implies list[j]
        == member by {
        law_token_is_unique(list, member.token, j, k);
    }
}

/// Who is alive stays, and is found by the token.
proof fn lemma_found(list: Seq<MemberModel>, member: MemberModel, now: u64)
    requires
        sound(list),
        list.contains(member),
        now - member.last_seen < LIFETIME_NS,
    ensures
        ({
            let living = alive(list, now);
            &&& sound(living)
            &&& living.contains(member)
            &&& is_holder(living, member.token, place(living, member.token))
            &&& living[place(living, member.token)] == member
            &&& forall|k: int| #[trigger]
                is_holder(living, member.token, k) ==> living[k] == member
        }),
{
    lemma_filter_thins(list, is_alive(now));
    law_silence_expires(list, now, member);
    lemma_place(alive(list, now), member);
}

/// Messages collect in the inbox, in their order.
proof fn lemma_passed_on(
    list: Seq<MemberModel>,
    first: MemberModel,
    second: MemberModel,
    messages: Seq<Description>,
    times: Seq<u64>,
)
    requires
        sound(list),
        list.contains(first),
        list.contains(second),
        first.room == second.room,
        first.id != second.id,
        second.inbox.len() == 0,
        messages.len() == times.len() <= INBOX,
        forall|k: int|
            0 <= k < times.len() ==> (#[trigger] times[k]) - first.last_seen < LIFETIME_NS
                && times[k] - second.last_seen < LIFETIME_NS,
    ensures
        ({
            let after = passed_on(list, second.token, messages, times);
            sound(after) && both_there(after, first, second, messages)
        }),
    decreases messages.len(),
{
    if messages.len() == 0 {
        assert(messages =~= second.inbox);
    } else {
        let count = messages.len() - 1;
        let now = times.last();
        assert(times[count] == now);
        assert forall|k: int| 0 <= k < times.drop_last().len() implies (
        #[trigger] times.drop_last()[k]) - first.last_seen < LIFETIME_NS && times.drop_last()[k]
            - second.last_seen < LIFETIME_NS by {
            assert(times[k] == times.drop_last()[k]);
        }
        lemma_passed_on(list, first, second, messages.drop_last(), times.drop_last());
        let before = passed_on(list, second.token, messages.drop_last(), times.drop_last());
        let waiting = MemberModel { inbox: messages.drop_last(), ..second };
        lemma_found(before, first, now);
        lemma_found(before, waiting, now);
        let living = alive(before, now);
        let i = place(living, first.token);
        let j = place(living, second.token);
        let after = signalled(living, j, messages.last());
        lemma_update(living, j, after[j]);
        assert(messages.drop_last().push(messages.last()) =~= messages);
        assert(after[j] == MemberModel { inbox: messages, ..second });
        assert(after[i] == first);
    }
}

/// The messages that one participant passes on between two answers to the other, of which there are
/// at most as many as an inbox holds, are all accepted; the other is handed them with its next
/// answer, in their order, and is told of the one that sent them. The answer after that has no
/// messages, and the sender's own inbox is untouched. Both are heard of within their lifetimes.
pub proof fn law_messages_are_delivered_in_order(
    list: Seq<MemberModel>,
    i: int,
    j: int,
    messages: Seq<Description>,
    times: Seq<u64>,
    now: u64,
    again: u64,
)
    requires
        sound(list),
        0 <= i < list.len(),
        is_other(list, list[i].room, list[i].id, j),
        list[j].inbox.len() == 0,
        messages.len() == times.len() <= INBOX,
        forall|k: int|
            0 <= k < times.len() ==> (#[trigger] times[k]) - list[i].last_seen < LIFETIME_NS
                && times[k] - list[j].last_seen < LIFETIME_NS,
        now - list[i].last_seen < LIFETIME_NS,
        now - list[j].last_seen < LIFETIME_NS,
        again - now < LIFETIME_NS,
    ensures
        forall|n: int|
            0 <= n < messages.len() ==> ({
                let living = alive(
                    passed_on(list, list[j].token, messages.take(n), times.take(n)),
                    #[trigger] times[n],
                );
                let sender = place(living, list[i].token);
                let other = place(living, list[j].token);
                &&& is_holder(living, list[i].token, sender)
                &&& is_other(living, living[sender].room, living[sender].id, other)
                &&& living[other].inbox.len() < INBOX
                &&& passed_on(list, list[j].token, messages.take(n + 1), times.take(n + 1))
                    == signalled(living, other, messages[n])
            }),
        ({
            let living = alive(passed_on(list, list[j].token, messages, times), now);
            let sender = place(living, list[i].token);
            let other = place(living, list[j].token);
            let answered = polled(living, other, now);
            let later = alive(answered, again);
            &&& sound(living)
            &&& is_holder(living, list[j].token, other)
            &&& living[other].inbox == messages
            &&& is_other(living, living[other].room, living[other].id, sender)
            &&& living[sender] == list[i]
            &&& answered[sender] == list[i]
            &&& is_holder(later, list[j].token, place(later, list[j].token))
            &&& later[place(later, list[j].token)].inbox == Seq::<Description>::empty()
        }),
{
    let first = list[i];
    let second = list[j];
    assert(list.contains(first) && list.contains(second));
    assert forall|n: int| 0 <= n < messages.len() implies ({
        let living = alive(
            passed_on(list, second.token, messages.take(n), times.take(n)),
            #[trigger] times[n],
        );
        let sender = place(living, first.token);
        let other = place(living, second.token);
        &&& is_holder(living, first.token, sender)
        &&& is_other(living, living[sender].room, living[sender].id, other)
        &&& living[other].inbox.len() < INBOX
        &&& passed_on(list, second.token, messages.take(n + 1), times.take(n + 1)) == signalled(
            living,
            other,
            messages[n],
        )
    }) by {
        let front = times.take(n);
        assert forall|k: int| 0 <= k < front.len() implies (#[trigger] front[k])
            - first.last_seen < LIFETIME_NS && front[k] - second.last_seen < LIFETIME_NS by {
            assert(times[k] == front[k]);
        }
        lemma_passed_on(list, first, second, messages.take(n), front);
        let before = passed_on(list, second.token, messages.take(n), front);
        lemma_found(before, first, times[n]);
        lemma_found(before, MemberModel { inbox: messages.take(n), ..second }, times[n]);
        assert(messages.take(n + 1).drop_last() =~= messages.take(n));
        assert(times.take(n + 1).drop_last() =~= times.take(n));
    }
    lemma_passed_on(list, first, second, messages, times);
    let after = passed_on(list, second.token, messages, times);
    let waiting = MemberModel { inbox: messages, ..second };
    lemma_found(after, first, now);
    lemma_found(after, waiting, now);
    let living = alive(after, now);
    let other = place(living, second.token);
    let answered = polled(living, other, now);
    lemma_update(living, other, answered[other]);
    assert(answered.contains(answered[other]));
    lemma_found(answered, answered[other], again);
}

/// A request to the server.
pub enum Request {
    /// A participant with a room, a name and a fresh token joins.
    Join(Seq<char>, Seq<char>, Seq<char>, u64),
    /// The holder of a token asks what has come.
    Poll(Seq<char>, u64),
    /// The holder of a token passes a message on.
    Signal(Seq<char>, Description, u64),
    /// The holder of a token leaves.
    Leave(Seq<char>),
}

/// Where the other participant of a room stands.
pub open spec fn other_place(list: Seq<MemberModel>, me: int) -> int {
    choose|j: int| is_other(list, list[me].room, list[me].id, j)
}

/// Whether a message of the holder of a token is accepted: there is another participant, whose inbox
/// has room.
pub open spec fn passes(living: Seq<MemberModel>, token: Seq<char>) -> bool {
    let me = place(living, token);
    let other = other_place(living, me);
    &&& has_token(living, token)
    &&& is_other(living, living[me].room, living[me].id, other)
    &&& living[other].inbox.len() < INBOX
}

/// The rooms after a request.
pub open spec fn served(list: Seq<MemberModel>, request: Request) -> Seq<MemberModel> {
    match request {
        Request::Join(room, id, token, now) => {
            let living = alive(list, now);
            if refusal(living, room, id) is Some {
                living
            } else {
                without(living, token).push(
                    MemberModel { token, room, id, last_seen: now, inbox: seq![] },
                )
            }
        },
        Request::Poll(token, now) => {
            let living = alive(list, now);
            if has_token(living, token) {
                polled(living, place(living, token), now)
            } else {
                living
            }
        },
        Request::Signal(token, message, now) => {
            let living = alive(list, now);
            if passes(living, token) {
                signalled(living, other_place(living, place(living, token)), message)
            } else {
                living
            }
        },
        Request::Leave(token) => without(list, token),
    }
}

/// The rooms after a list of requests.
pub open spec fn served_all(list: Seq<MemberModel>, requests: Seq<Request>) -> Seq<MemberModel>
    decreases requests.len(),
{
    if requests.len() == 0 {
        list
    } else {
        served(served_all(list, requests.drop_last()), requests.last())
    }
}

/// Whether a request passes a message on to the holder of a token.
pub open spec fn reaches(list: Seq<MemberModel>, request: Request, token: Seq<char>) -> bool {
    match request {
        Request::Signal(sender, _, now) => {
            let living = alive(list, now);
            passes(living, sender) && living[other_place(
                living,
                place(living, sender),
            )].token == token
        },
        _ => false,
    }
}

/// The messages that were accepted for the holder of a token since it last asked, in the order in
/// which they were, after those that it had at the beginning.
pub open spec fn pending(
    list: Seq<MemberModel>,
    requests: Seq<Request>,
    token: Seq<char>,
) -> Seq<Description>
    decreases requests.len(),
{
    if requests.len() == 0 {
        list[place(list, token)].inbox
    } else {
        let front = requests.drop_last();
        let before = pending(list, front, token);
        match requests.last() {
            Request::Poll(asking, _) if asking == token => seq![],
            Request::Signal(_, message, _) if reaches(
                served_all(list, front),
                requests.last(),
                token,
            ) => before.push(message),
            _ => before,
        }
    }
}

/// Whether a request makes a token that of another participant.
pub open spec fn hands_out(request: Request, token: Seq<char>) -> bool {
    request matches Request::Join(_, _, fresh, _) && fresh == token
}

/// Who remains when the holder of a token leaves.
proof fn lemma_without_contains(list: Seq<MemberModel>, token: Seq<char>, member: MemberModel)
    ensures
        without(list, token).contains(member) <==> list.contains(member) && member.token != token,
    decreases list.len(),
{
    reveal(Seq::filter);
    if list.len() > 0 {
        let front = list.drop_last();
        lemma_without_contains(front, token, member);
        assert(list =~= front.push(list.last()));
        lemma_push_contains(front, list.last(), member);
        lemma_push_contains(without(front, token), list.last(), member);
    }
}

/// Requests keep the rooms sound.
proof fn lemma_served_sound(list: Seq<MemberModel>, request: Request)
    requires
        sound(list),
    ensures
        sound(served(list, request)),
{
    match request {
        Request::Join(room, id, token, now) => {
            lemma_filter_thins(list, is_alive(now));
            let living = alive(list, now);
            let member = MemberModel { token, room, id, last_seen: now, inbox: seq![] };
            lemma_filter_thins(living, not_holding(token));
            lemma_without(living, token);
            let rest = without(living, token);
            if refusal(living, room, id) is None {
                assert(occupancy(rest, room) <= occupancy(living, room));
                assert(has_id(rest, room, id) ==> has_id(living, room, id));
                lemma_push(rest, member);
            }
        },
        Request::Poll(token, now) => {
            lemma_filter_thins(list, is_alive(now));
            let living = alive(list, now);
            let me = place(living, token);
            if has_token(living, token) {
                lemma_update(living, me, polled(living, me, now)[me]);
            }
        },
        Request::Signal(token, message, now) => {
            lemma_filter_thins(list, is_alive(now));
            let living = alive(list, now);
            let other = other_place(living, place(living, token));
            if passes(living, token) {
                lemma_update(living, other, signalled(living, other, message)[other]);
            }
        },
        Request::Leave(token) => {
            lemma_filter_thins(list, not_holding(token));
        },
    }
}

/// What a request makes of the participant that holds a token.
proof fn lemma_served_member(list: Seq<MemberModel>, request: Request, token: Seq<char>)
    requires
        sound(list),
        !hands_out(request, token),
        has_token(served(list, request), token),
    ensures
        has_token(list, token),
        ({
            let before = list[place(list, token)];
            let after = served(list, request)[place(served(list, request), token)];
            &&& after.token == token
            &&& after.room == before.room
            &&& after.id == before.id
            &&& after.inbox == (match request {
                Request::Poll(asking, _) if asking == token => seq![],
                Request::Signal(_, message, _) if reaches(list, request, token) => before.inbox.push(
                    message,
                ),
                _ => before.inbox,
            })
        }),
{
    let result = served(list, request);
    lemma_served_sound(list, request);
    let k = choose|k: int| is_holder(result, token, k);
    let after = result[k];
    assert(result.contains(after));
    lemma_place(result, after);
    match request {
        Request::Join(room, id, fresh, now) => {
            let living = alive(list, now);
            lemma_filter_thins(list, is_alive(now));
            if refusal(living, room, id) is None {
                let rest = without(living, fresh);
                let member = MemberModel {
                    token: fresh,
                    room,
                    id,
                    last_seen: now,
                    inbox: seq![],
                };
                lemma_push_contains(rest, member, after);
                lemma_without_contains(living, fresh, after);
            }
            law_silence_expires(list, now, after);
            lemma_place(list, after);
        },
        Request::Poll(asking, now) => {
            let living = alive(list, now);
            lemma_filter_thins(list, is_alive(now));
            assert(living[k].token == token);
            assert(living.contains(living[k]));
            law_silence_expires(list, now, living[k]);
            lemma_place(list, living[k]);
            if has_token(living, asking) {
                let me = place(living, asking);
                if asking == token {
                    law_token_is_unique(living, token, me, k);
                }
            }
        },
        Request::Signal(sender, message, now) => {
            let living = alive(list, now);
            lemma_filter_thins(list, is_alive(now));
            assert(living[k].token == token);
            assert(living.contains(living[k]));
            law_silence_expires(list, now, living[k]);
            lemma_place(list, living[k]);
            if passes(living, sender) {
                let other = other_place(living, place(living, sender));
                if living[other].token == token {
                    law_token_is_unique(living, token, other, k);
                }
            }
        },
        Request::Leave(leaving) => {
            lemma_without_contains(list, leaving, after);
            lemma_place(list, after);
        },
    }
}

/// Whatever is asked of the server by whomever, a participant that is still known has exactly those
/// messages waiting that were accepted for it since it last asked, in the order in which they were
/// accepted. Its next answer hands them out.
pub proof fn law_inbox_holds_what_was_accepted(
    list: Seq<MemberModel>,
    requests: Seq<Request>,
    token: Seq<char>,
)
    requires
        sound(list),
        forall|k: int| 0 <= k < requests.len() ==> !hands_out(#[trigger] requests[k], token),
        has_token(served_all(list, requests), token),
    ensures
        ({
            let after = served_all(list, requests);
            let member = after[place(after, token)];
            &&& sound(after)
            &&& has_token(list, token)
            &&& member.room == list[place(list, token)].room
            &&& member.id == list[place(list, token)].id
            &&& member.inbox == pending(list, requests, token)
            &&& member.inbox.len() <= INBOX
        }),
    decreases requests.len(),
{
    if requests.len() > 0 {
        let front = requests.drop_last();
        let last = requests.len() - 1;
        assert(!hands_out(requests[last], token));
        lemma_all_sound(list, front);
        lemma_served_member(served_all(list, front), requests.last(), token);
        assert forall|k: int| 0 <= k < front.len() implies !hands_out(
            #[trigger] front[k],
            token,
        ) by {
            assert(front[k] == requests[k]);
        }
        law_inbox_holds_what_was_accepted(list, front, token);
    }
    lemma_all_sound(list, requests);
    let after = served_all(list, requests);
    let k = choose|k: int| is_holder(after, token, k);
    assert(after.contains(after[k]));
    lemma_place(after, after[k]);
}

proof fn lemma_all_sound(list: Seq<MemberModel>, requests: Seq<Request>)
    requires
        sound(list),
    ensures
        sound(served_all(list, requests)),
    decreases requests.len(),
{
    if requests.len() > 0 {
        lemma_all_sound(list, requests.drop_last());
        lemma_served_sound(served_all(list, requests.drop_last()), requests.last());
    }
}

/// A token that nobody holds, or whose holder has not been heard of for its lifetime, is not known.
pub proof fn law_expired_token_is_unknown(list: Seq<MemberModel>, token: Seq<char>, now: u64)
    requires
        forall|i: int| #[trigger]
            is_holder(list, token, i) ==> now - list[i].last_seen >= LIFETIME_NS,
    ensures
        !has_token(alive(list, now), token),
{
    let living = alive(list, now);
    assert forall|k: int| !is_holder(living, token, k) by {
        if is_holder(living, token, k) {
            assert(living.contains(living[k]));
            law_silence_expires(list, now, living[k]);
            let i = choose|i: int| 0 <= i < list.len() && list[i] == living[k];
            assert(is_holder(list, token, i));
        }
    }
}

/// Who has left is not known any more.
pub proof fn law_left_is_forgotten(list: Seq<MemberModel>, token: Seq<char>)
    ensures
        !has_token(without(list, token), token),
{
    lemma_without(list, token);
}

/// Who has not been heard of for its lifetime is forgotten, and nobody else is.
pub proof fn law_silence_expires(list: Seq<MemberModel>, now: u64, member: MemberModel)
    ensures
        alive(list, now).contains(member) <==> list.contains(member) && now - member.last_seen
            < LIFETIME_NS,
    decreases list.len(),
{
    reveal(Seq::filter);
    if list.len() > 0 {
        let front = list.drop_last();
        law_silence_expires(front, now, member);
        let rest = alive(front, now);
        let all = alive(list, now);
        assert(list =~= front.push(list.last()));
        lemma_push_contains(front, list.last(), member);
        lemma_push_contains(rest, list.last(), member);
    }
}

proof fn lemma_push_contains(list: Seq<MemberModel>, last: MemberModel, member: MemberModel)
    ensures
        list.push(last).contains(member) <==> list.contains(member) || member == last,
{
    let all = list.push(last);
    if list.contains(member) {
        let i = choose|i: int| 0 <= i < list.len() && list[i] == member;
        assert(all[i] == member);
    }
    if member == last {
        assert(all[list.len() as int] == member);
    }
    if all.contains(member) {
        let i = choose|i: int| 0 <= i < all.len() && all[i] == member;
        if i < list.len() {
            assert(list[i] == member);
        }
    }
}

/// Whether the server may listen at an address, or a participant may call it there: the
/// conversation must not leave the host.
pub fn check_address(address: Endpoint) -> (r: Result<(), &'static str>)
    ensures
        r is Ok <==> address.ip.local() && address.ip is V4,
        r matches Err(message) ==> message@
            == "P0 only accepts IPv4 loopback addresses (127.0.0.1)"@,
{
    if !address.ip.is_loopback() || !address.ip.is_ipv4() {
        return Err("P0 only accepts IPv4 loopback addresses (127.0.0.1)");
    }
    Ok(())
}

/// Where participants join.
pub fn join_url(address: &str) -> (r: String)
    ensures
        r@ == "http://"@ + address@ + "/join"@,
{
    let mut list = text::characters("http://");
    text::write_text(&mut list, address);
    text::write_text(&mut list, "/join");
    text::string_from(&list)
}

/// Where a participant with a token is answered.
pub fn session_url(address: &str, token: &str) -> (r: String)
    ensures
        r@ == "http://"@ + address@ + "/session/"@ + token@,
{
    let mut list = text::characters("http://");
    text::write_text(&mut list, address);
    text::write_text(&mut list, "/session/");
    text::write_text(&mut list, token);
    text::string_from(&list)
}

/// Whether a character is a letter or a digit of the plain alphabet, a hyphen or an underscore, by its
/// number.
pub open spec fn is_plain_number(number: nat) -> bool {
    number == 45 || number == 95 || 48 <= number < 58 || 65 <= number < 91 || 97 <= number < 123
}

proof fn lemma_plain_number(c: char)
    ensures
        is_plain(c) == is_plain_number(c as nat),
{
}

/// A text names a room or a participant exactly if it has 1 to 48 characters, each of them a letter or a
/// digit of the plain alphabet, a hyphen or an underscore.
pub proof fn law_names(name: Seq<char>)
    ensures
        is_name(name) <==> 0 < name.len() < 49 && forall|i: int|
            0 <= i < name.len() ==> is_plain_number(#[trigger] name[i] as nat),
{
    assert forall|i: int| 0 <= i < name.len() implies is_plain(#[trigger] name[i])
        == is_plain_number(name[i] as nat) by {
        lemma_plain_number(name[i]);
    }
    if 0 < name.len() < 49 && forall|i: int|
        0 <= i < name.len() ==> is_plain_number(#[trigger] name[i] as nat) {
        assert forall|i: int| 0 <= i < name.len() implies is_plain(#[trigger] name[i]) by {
            assert(is_plain_number(name[i] as nat));
        }
    }
}

/// A room is counted by its participants: it has one exactly if somebody is in it, and two exactly if
/// two different ones are.
pub proof fn law_participants_are_counted(list: Seq<MemberModel>, room: Seq<char>)
    ensures
        occupancy(list, room) >= 1 <==> exists|i: int|
            0 <= i < list.len() && (#[trigger] list[i]).room == room,
        occupancy(list, room) >= 2 <==> exists|i: int, j: int|
            0 <= i < j < list.len() && (#[trigger] list[i]).room == room && (
            #[trigger] list[j]).room == room,
    decreases list.len(),
{
    if list.len() > 0 {
        let front = list.drop_last();
        let last = list.len() - 1;
        law_participants_are_counted(front, room);
        assert forall|i: int| 0 <= i < front.len() implies #[trigger] front[i] == list[i] by {}
        if occupancy(front, room) >= 1 {
            let i = choose|i: int| 0 <= i < front.len() && (#[trigger] front[i]).room == room;
            assert(list[i].room == room);
            if list[last].room == room {
                assert(list[i].room == room && list[last].room == room);
            }
        }
        if occupancy(front, room) >= 2 {
            let (i, j) = choose|i: int, j: int|
                0 <= i < j < front.len() && (#[trigger] front[i]).room == room && (
                #[trigger] front[j]).room == room;
            assert(list[i].room == room && list[j].room == room);
        }
        if list[last].room == room {
            assert(occupancy(list, room) >= 1);
        }
        if exists|i: int| 0 <= i < list.len() && (#[trigger] list[i]).room == room {
            let i = choose|i: int| 0 <= i < list.len() && (#[trigger] list[i]).room == room;
            if i < last {
                assert(front[i].room == room);
            }
        }
        if exists|i: int, j: int|
            0 <= i < j < list.len() && (#[trigger] list[i]).room == room && (
            #[trigger] list[j]).room == room {
            let (i, j) = choose|i: int, j: int|
                0 <= i < j < list.len() && (#[trigger] list[i]).room == room && (
                #[trigger] list[j]).room == room;
            assert(front[i].room == room);
            if j < last {
                assert(front[j].room == room);
            }
        }
    }
}

/// Who may join, and what the others are told, from what is looked at first to what is looked at last:
/// the names must be ones, nobody of that name may be in the room, the room must have a place, and the
/// server must have one of its 32.
pub proof fn law_who_may_join(list: Seq<MemberModel>, room: Seq<char>, id: Seq<char>)
    ensures
        ({
            let named = is_name(room) && is_name(id);
            let known = exists|i: int|
                0 <= i < list.len() && (#[trigger] list[i]).room == room && list[i].id == id;
            let full = exists|i: int, j: int|
                0 <= i < j < list.len() && (#[trigger] list[i]).room == room && (
                #[trigger] list[j]).room == room;
            let crowded = list.len() >= 32;
            &&& refusal(list, room, id) is None <==> named && !known && !full && !crowded
            &&& refusal(list, room, id) == Some(ApiError::BadName) <==> !named
            &&& refusal(list, room, id) == Some(ApiError::IdTaken) <==> named && known
            &&& refusal(list, room, id) == Some(ApiError::RoomFull) <==> named && !known && full
            &&& refusal(list, room, id) == Some(ApiError::ServerFull) <==> named && !known && !full
                && crowded
        }),
{
    law_participants_are_counted(list, room);
}

/// Whoever is answered is known for ten seconds more and no longer, and a message that is passed on to a
/// participant does not keep it known.
pub proof fn law_answers_keep_participants_known(
    list: Seq<MemberModel>,
    i: int,
    message: Description,
    now: u64,
    later: u64,
)
    requires
        sound(list),
        0 <= i < list.len(),
        now <= later,
    ensures
        has_token(alive(polled(list, i, now), later), list[i].token) <==> later - now
            < 10_000_000_000,
        has_token(alive(signalled(list, i, message), later), list[i].token) <==> later
            - list[i].last_seen < 10_000_000_000,
{
    let answered = polled(list, i, now);
    let told = signalled(list, i, message);
    let token = list[i].token;
    lemma_known_while_alive(list, answered, i, later);
    lemma_known_while_alive(list, told, i, later);
}

/// Another state of one participant, who is known as long as that is alive.
proof fn lemma_known_while_alive(
    list: Seq<MemberModel>,
    changed: Seq<MemberModel>,
    i: int,
    now: u64,
)
    requires
        sound(list),
        0 <= i < list.len(),
        changed == list.update(i, changed[i]),
        changed[i].token == list[i].token,
    ensures
        has_token(alive(changed, now), list[i].token) <==> now - changed[i].last_seen < LIFETIME_NS,
{
    let token = list[i].token;
    let living = alive(changed, now);
    assert(changed.contains(changed[i]));
    law_silence_expires(changed, now, changed[i]);
    if now - changed[i].last_seen < LIFETIME_NS {
        let k = choose|k: int| 0 <= k < living.len() && living[k] == changed[i];
        assert(is_holder(living, token, k));
    }
    if has_token(living, token) {
        let k = choose|k: int| is_holder(living, token, k);
        assert(living.contains(living[k]));
        law_silence_expires(changed, now, living[k]);
        let p = choose|p: int| 0 <= p < changed.len() && changed[p] == living[k];
        if p != i {
            assert(list[p].token == token);
            law_token_is_unique(list, token, p, i);
        }
    }
}

/// Who joins is in the room from then on, under the name and the token, with nothing waiting; all others
/// stay as they are, but for one that held the token.
pub proof fn law_joining(
    list: Seq<MemberModel>,
    room: Seq<char>,
    id: Seq<char>,
    token: Seq<char>,
    now: u64,
    member: MemberModel,
)
    requires
        refusal(alive(list, now), room, id) is None,
    ensures
        ({
            let after = served(list, Request::Join(room, id, token, now));
            after.contains(member) <==> {
                ||| member.token == token && member.room == room && member.id == id
                    && member.last_seen == now && member.inbox.len() == 0
                ||| list.contains(member) && now - member.last_seen < 10_000_000_000
                    && member.token != token
            }
        }),
{
    let living = alive(list, now);
    let rest = without(living, token);
    let new = MemberModel { token, room, id, last_seen: now, inbox: seq![] };
    lemma_push_contains(rest, new, member);
    lemma_without_contains(living, token, member);
    law_silence_expires(list, now, member);
    if member.token == token && member.room == room && member.id == id && member.last_seen == now
        && member.inbox.len() == 0 {
        assert(member.inbox =~= seq![]);
        assert(member == new);
    }
}

/// A message of a participant is accepted exactly if another one is in its room for whom fewer than eight
/// messages wait.
pub proof fn law_when_messages_are_accepted(list: Seq<MemberModel>, me: int, token: Seq<char>)
    requires
        sound(list),
        is_holder(list, token, me),
    ensures
        passes(list, token) <==> exists|j: int|
            0 <= j < list.len() && (#[trigger] list[j]).room == list[me].room && list[j].id
                != list[me].id && list[j].inbox.len() < 8,
{
    let here = place(list, token);
    assert(is_holder(list, token, here));
    law_token_is_unique(list, token, me, here);
    let other = other_place(list, me);
    if passes(list, token) {
        assert(list[other].room == list[me].room && list[other].id != list[me].id);
    }
    if exists|j: int|
        0 <= j < list.len() && (#[trigger] list[j]).room == list[me].room && list[j].id
            != list[me].id && list[j].inbox.len() < 8 {
        let j = choose|j: int|
            0 <= j < list.len() && (#[trigger] list[j]).room == list[me].room && list[j].id
                != list[me].id && list[j].inbox.len() < 8;
        assert(is_other(list, list[me].room, list[me].id, j));
        assert(is_other(list, list[me].room, list[me].id, other));
        law_other_is_unique(list, me, j, other);
    }
}

} // verus!
