//! One world server instance: its registry, the proximity engine and the
//! message router. Each operation handles one event and returns the effects
//! to carry out, in order.
use vstd::prelude::*;
use vstd::string::StringExecFns;

use crate::geometry::{dist_sqr, within_radius, Mat3, Position};
use crate::message::{effects_view, Effect, EffectView, Message, MessageView, NO_TARGET};
use crate::registry::{aura_member, lemma_without_absent, same_but_aura, without, Session, SessionRegistry};

verus! {

/// Configuration of one world server.
#[derive(Clone, Copy, Debug, PartialEq, Eq, Structural)]
pub struct BureauOptions {
    /// Most sessions at once; a negative value admits none.
    pub max_players: i32,
    /// Aura radius, in position units.
    pub aura_radius: u32,
}

/// The state of one world server.
#[derive(Debug)]
pub struct Bureau {
    pub registry: SessionRegistry,
    pub options: BureauOptions,
}

/// `without(s, x)` holds exactly the elements of `s` other than `x`.
pub proof fn lemma_without_contains(s: Seq<i32>, x: i32, y: i32)
    ensures
        without(s, x).contains(y) == (s.contains(y) && y != x),
    decreases s.len(),
{
    if s.len() > 0 {
        let p = s.drop_last();
        lemma_without_contains(p, x, y);
        lemma_push_contains(p, s.last(), y);
        assert(s =~= p.push(s.last()));
        if s.last() != x {
            lemma_push_contains(without(p, x), s.last(), y);
        }
    }
}

/// A send of `msg` to the sessions of `to`.
pub open spec fn send(to: Seq<i32>, msg: MessageView) -> EffectView {
    EffectView::Send { to, msg }
}

/// The effects of checking the pair of sessions at indices `i` and `j` in
/// `s`: nothing when their aura membership already agrees with their
/// distance, or when either has departed; otherwise the notices to both and
/// the hook notification.
pub open spec fn pair_effects(s: Seq<Session>, i: int, j: int, radius: u32) -> Seq<EffectView> {
    let u = s[i];
    let o = s[j];
    let near = within_radius(u.pos.at, o.pos.at, radius);
    if i == j || u.departed || o.departed {
        Seq::empty()
    } else if aura_member(s, i, j) && !near {
        seq![
            send(seq![o.id], MessageView::UserLeft { id: u.id }),
            send(seq![u.id], MessageView::UserLeft { id: o.id }),
            EffectView::AuraLeft { user: u.id, other: o.id },
        ]
    } else if !aura_member(s, i, j) && near {
        seq![
            send(seq![o.id], MessageView::UserJoined { id: u.id, avatar: u.avatar@, name: u.name@ }),
            send(seq![o.id], MessageView::CharacterUpdate { from: u.id, data: u.character_data@ }),
            send(seq![u.id], MessageView::UserJoined { id: o.id, avatar: o.avatar@, name: o.name@ }),
            send(seq![u.id], MessageView::CharacterUpdate { from: o.id, data: o.character_data@ }),
            EffectView::AuraEntered { user: u.id, other: o.id },
        ]
    } else {
        Seq::empty()
    }
}

/// The effects of a proximity pass for the session at index `i` against the
/// first `n` sessions of `s`, in registry order.
pub open spec fn pass_effects(s: Seq<Session>, i: int, radius: u32, n: int) -> Seq<EffectView>
    decreases n,
{
    if n <= 0 {
        Seq::empty()
    } else {
        pass_effects(s, i, radius, n - 1) + pair_effects(s, i, n - 1, radius)
    }
}

/// Aura membership between the sessions at indices `a` and `b` after a
/// proximity pass for index `i`: pairs with `i` follow the distance unless
/// either has departed, all other pairs keep their membership.
pub open spec fn member_after_pass(s: Seq<Session>, i: int, radius: u32, a: int, b: int) -> bool {
    if a == i && b != i {
        within_radius(s[i].pos.at, s[b].pos.at, radius) && !s[i].departed && !s[b].departed
    } else if b == i && a != i {
        within_radius(s[i].pos.at, s[a].pos.at, radius) && !s[i].departed && !s[a].departed
    } else {
        aura_member(s, a, b)
    }
}

/// The list holding `id` alone.
fn one(id: i32) -> (v: Vec<i32>)
    ensures
        v@ == seq![id],
{
    let mut v: Vec<i32> = Vec::new();
    v.push(id);
    assert(v@ =~= seq![id]);
    v
}

/// A line of global chat as relayed: the sender's name, a colon, the text.
pub open spec fn chat_line(name: Seq<char>, text: Seq<char>) -> Seq<char> {
    name + ": "@ + text
}

/// The notice to a sender whose chat line a hook suppressed.
pub open spec fn hidden_notice() -> Seq<char> {
    "Your message was hidden."@
}

/// The notice to a sender whose chat line a hook replaced with `text`.
pub open spec fn replaced_notice(text: Seq<char>) -> Seq<char> {
    "Your message was replaced with '"@ + text + "'"@
}

/// The effects of a chat line `msg` from `user`, named `name`, given the
/// chat hook's `reply`: none relays the line to `others`; an empty
/// replacement hides it and tells only the sender; another replacement is
/// relayed instead, and the sender is told.
pub open spec fn chat_effects(
    others: Seq<i32>,
    user: i32,
    name: Seq<char>,
    msg: Seq<char>,
    reply: Option<String>,
) -> Seq<EffectView> {
    match reply {
        None => seq![send(others, MessageView::ChatSend { from: user, text: chat_line(name, msg) })],
        Some(o) => if o@.len() == 0 {
            seq![send(seq![user], MessageView::Notice { text: hidden_notice() })]
        } else {
            seq![
                send(seq![user], MessageView::Notice { text: replaced_notice(o@) }),
                send(others, MessageView::ChatSend { from: user, text: chat_line(name, o@) }),
            ]
        },
    }
}

/// One departure notice for `user` to each peer of `peers`, in order.
pub open spec fn departures(peers: Seq<i32>, user: i32) -> Seq<EffectView> {
    peers.map_values(|p: i32| send(seq![p], MessageView::UserLeft { id: user }))
}

/// When a session leaves, each of its distinct aura peers receives exactly
/// one departure notice for it, and nobody else receives one.
pub proof fn lemma_departure_once(peers: Seq<i32>, user: i32, p: i32)
    requires
        peers.no_duplicates(),
    ensures
        peers.contains(p) ==> exists|q: int|
            0 <= q < peers.len() && #[trigger] departures(peers, user)[q] == send(
                seq![p],
                MessageView::UserLeft { id: user },
            ),
        forall|q1: int, q2: int|
            0 <= q1 < peers.len() && 0 <= q2 < peers.len() && #[trigger] departures(peers, user)[q1]
                == send(seq![p], MessageView::UserLeft { id: user }) && #[trigger] departures(peers, user)[q2]
                == send(seq![p], MessageView::UserLeft { id: user }) ==> q1 == q2,
        !peers.contains(p) ==> forall|q: int|
            0 <= q < peers.len() ==> #[trigger] departures(peers, user)[q] != send(
                seq![p],
                MessageView::UserLeft { id: user },
            ),
{
    if peers.contains(p) {
        let q = choose|q: int| 0 <= q < peers.len() && peers[q] == p;
        assert(departures(peers, user)[q] == send(seq![p], MessageView::UserLeft { id: user }));
    }
    assert forall|q1: int, q2: int|
        0 <= q1 < peers.len() && 0 <= q2 < peers.len() && #[trigger] departures(peers, user)[q1]
            == send(seq![p], MessageView::UserLeft { id: user }) && #[trigger] departures(peers, user)[q2]
            == send(seq![p], MessageView::UserLeft { id: user }) implies q1 == q2 by {
        assert(seq![peers[q1]][0] == seq![p][0]);
        assert(seq![peers[q2]][0] == seq![p][0]);
    }
    assert forall|q: int| 0 <= q < peers.len() implies #[trigger] departures(peers, user)[q] != send(
        seq![p],
        MessageView::UserLeft { id: user },
    ) || peers.contains(p) by {
        if departures(peers, user)[q] == send(seq![p], MessageView::UserLeft { id: user }) {
            assert(seq![peers[q]][0] == seq![p][0]);
        }
    }
}

/// The session is marked disconnected and has not departed yet.
pub open spec fn is_flagged(s: Session) -> bool {
    !s.connected && !s.departed
}

/// The ids of the flagged sessions among the first `m` of `s`, in order.
pub open spec fn gone_ids(s: Seq<Session>, m: int) -> Seq<i32>
    decreases m,
{
    if m <= 0 {
        Seq::empty()
    } else if is_flagged(s[m - 1]) {
        gone_ids(s, m - 1).push(s[m - 1].id)
    } else {
        gone_ids(s, m - 1)
    }
}

/// `a` without every id of `xs`, order kept.
pub open spec fn without_all(a: Seq<i32>, xs: Seq<i32>) -> Seq<i32>
    decreases xs.len(),
{
    if xs.len() == 0 {
        a
    } else {
        without(without_all(a, xs.drop_last()), xs.last())
    }
}

/// The effects of disconnecting, in order, the flagged sessions among
/// the first `m` of `s`: each tells the peers still in its aura that it left,
/// then notifies the hook.
pub open spec fn cascade(s: Seq<Session>, m: int) -> Seq<EffectView>
    decreases m,
{
    if m <= 0 {
        Seq::empty()
    } else if is_flagged(s[m - 1]) {
        cascade(s, m - 1) + departures(without_all(s[m - 1].aura@, gone_ids(s, m - 1)), s[m - 1].id)
            + seq![EffectView::Removed { id: s[m - 1].id }]
    } else {
        cascade(s, m - 1)
    }
}

/// With one flagged session, at index `a`, nothing is gone before it, and
/// the cascade over the first `m` sessions is empty up to it and its own
/// disconnection from then on.
proof fn lemma_cascade_prefix(s: Seq<Session>, a: int, m: int)
    requires
        0 <= a < s.len(),
        0 <= m <= s.len(),
        is_flagged(s[a]),
        forall|k: int| 0 <= k < s.len() && k != a ==> !is_flagged(#[trigger] s[k]),
    ensures
        m <= a ==> gone_ids(s, m).len() == 0 && cascade(s, m).len() == 0,
        m > a ==> cascade(s, m) == departures(s[a].aura@, s[a].id) + seq![EffectView::Removed { id: s[a].id }],
    decreases m,
{
    if m > 0 {
        lemma_cascade_prefix(s, a, m - 1);
        if m - 1 == a {
            assert(without_all(s[a].aura@, gone_ids(s, a)) == s[a].aura@);
            assert(cascade(s, m - 1) + departures(s[a].aura@, s[a].id) =~= departures(s[a].aura@, s[a].id));
        }
    }
}

/// A single flagged session `a` with aura peers: the disconnection step
/// sends each peer exactly one departure notice for it, then notifies the
/// hook once, and nothing else.
pub proof fn lemma_single_disconnect(s: Seq<Session>, a: int, p: i32)
    requires
        0 <= a < s.len(),
        is_flagged(s[a]),
        s[a].aura@.no_duplicates(),
        forall|k: int| 0 <= k < s.len() && k != a ==> !is_flagged(#[trigger] s[k]),
    ensures
        cascade(s, s.len() as int) == departures(s[a].aura@, s[a].id) + seq![
            EffectView::Removed { id: s[a].id },
        ],
        s[a].aura@.contains(p) ==> exists|q: int|
            0 <= q < s[a].aura@.len() && #[trigger] departures(s[a].aura@, s[a].id)[q] == send(
                seq![p],
                MessageView::UserLeft { id: s[a].id },
            ),
        forall|q1: int, q2: int|
            0 <= q1 < s[a].aura@.len() && 0 <= q2 < s[a].aura@.len() && #[trigger] departures(
                s[a].aura@,
                s[a].id,
            )[q1] == send(seq![p], MessageView::UserLeft { id: s[a].id }) && #[trigger] departures(
                s[a].aura@,
                s[a].id,
            )[q2] == send(seq![p], MessageView::UserLeft { id: s[a].id }) ==> q1 == q2,
{
    lemma_cascade_prefix(s, a, s.len() as int);
    lemma_departure_once(s[a].aura@, s[a].id, p);
}

/// The index, before a removal at index `i`, of what is at index `k` after it.
pub open spec fn skip(i: int, k: int) -> int {
    if k < i {
        k
    } else {
        k + 1
    }
}

/// Pushing `v` onto `s` adds exactly `v` to what it contains.
proof fn lemma_push_contains(s: Seq<i32>, v: i32, y: i32)
    ensures
        s.push(v).contains(y) == (s.contains(y) || y == v),
{
    if s.push(v).contains(y) {
        let q = choose|q: int| 0 <= q < s.len() + 1 && s.push(v)[q] == y;
        if q < s.len() {
            assert(s[q] == y);
        }
    }
    if s.contains(y) {
        let q = choose|q: int| 0 <= q < s.len() && s[q] == y;
        assert(s.push(v)[q] == y);
    }
    if y == v {
        assert(s.push(v)[s.len() as int] == y);
    }
}

/// The aura threshold includes its boundary and is mutual: after a
/// proximity pass for the session at index `i`, it and the session at index
/// `j`, neither departed, are in each other's aura exactly when their squared distance is at
/// most the squared radius. Entering yields one arrival notice and one
/// character update to each of the two and one hook notification; leaving
/// yields one departure notice to each and one hook notification.
pub proof fn lemma_aura_threshold(s: Seq<Session>, i: int, j: int, radius: u32)
    requires
        0 <= i < s.len(),
        0 <= j < s.len(),
        i != j,
        !s[i].departed,
        !s[j].departed,
    ensures
        member_after_pass(s, i, radius, i, j) == (dist_sqr(s[i].pos.at, s[j].pos.at) <= radius * radius),
        member_after_pass(s, i, radius, j, i) == member_after_pass(s, i, radius, i, j),
        dist_sqr(s[i].pos.at, s[j].pos.at) == radius * radius ==> member_after_pass(s, i, radius, i, j),
        !aura_member(s, i, j) && dist_sqr(s[i].pos.at, s[j].pos.at) <= radius * radius ==> pair_effects(
            s,
            i,
            j,
            radius,
        ) == seq![
            send(seq![s[j].id], MessageView::UserJoined { id: s[i].id, avatar: s[i].avatar@, name: s[i].name@ }),
            send(seq![s[j].id], MessageView::CharacterUpdate { from: s[i].id, data: s[i].character_data@ }),
            send(seq![s[i].id], MessageView::UserJoined { id: s[j].id, avatar: s[j].avatar@, name: s[j].name@ }),
            send(seq![s[i].id], MessageView::CharacterUpdate { from: s[j].id, data: s[j].character_data@ }),
            EffectView::AuraEntered { user: s[i].id, other: s[j].id },
        ],
        aura_member(s, i, j) && dist_sqr(s[i].pos.at, s[j].pos.at) > radius * radius ==> pair_effects(
            s,
            i,
            j,
            radius,
        ) == seq![
            send(seq![s[j].id], MessageView::UserLeft { id: s[i].id }),
            send(seq![s[i].id], MessageView::UserLeft { id: s[j].id }),
            EffectView::AuraLeft { user: s[i].id, other: s[j].id },
        ],
{
}

/// How many times `x` occurs in `e`.
pub open spec fn occurrences(e: Seq<EffectView>, x: EffectView) -> nat
    decreases e.len(),
{
    if e.len() == 0 {
        0
    } else {
        occurrences(e.drop_last(), x) + if e.last() == x {
            1nat
        } else {
            0nat
        }
    }
}

/// Occurrences add up over a concatenation.
pub proof fn lemma_occurrences_concat(a: Seq<EffectView>, b: Seq<EffectView>, x: EffectView)
    ensures
        occurrences(a + b, x) == occurrences(a, x) + occurrences(b, x),
    decreases b.len(),
{
    if b.len() > 0 {
        lemma_occurrences_concat(a, b.drop_last(), x);
        assert((a + b).drop_last() =~= a + b.drop_last());
        assert((a + b).last() == b.last());
    } else {
        assert(a + b =~= a);
    }
}

/// `x` does not occur in `e` when no element of `e` equals it.
proof fn lemma_occurrences_none(e: Seq<EffectView>, x: EffectView)
    requires
        forall|q: int| 0 <= q < e.len() ==> e[q] != x,
    ensures
        occurrences(e, x) == 0,
    decreases e.len(),
{
    if e.len() > 0 {
        lemma_occurrences_none(e.drop_last(), x);
    }
}

/// `x` occurs once in `e` when exactly one element of `e` equals it.
proof fn lemma_occurrences_one(e: Seq<EffectView>, x: EffectView, q0: int)
    requires
        0 <= q0 < e.len(),
        e[q0] == x,
        forall|q: int| 0 <= q < e.len() && q != q0 ==> e[q] != x,
    ensures
        occurrences(e, x) == 1,
    decreases e.len(),
{
    if q0 == e.len() - 1 {
        lemma_occurrences_none(e.drop_last(), x);
    } else {
        lemma_occurrences_one(e.drop_last(), x, q0);
    }
}

/// The occurrences of `x` in the first `n` pairs of a pass are those in the
/// pair with index `j`, where `x` occurs in no other pair.
proof fn lemma_pass_occurrences(s: Seq<Session>, i: int, radius: u32, n: int, j: int, x: EffectView)
    requires
        0 <= n <= s.len(),
        forall|k: int| 0 <= k < n && k != j ==> occurrences(#[trigger] pair_effects(s, i, k, radius), x) == 0,
    ensures
        occurrences(pass_effects(s, i, radius, n), x) == if 0 <= j < n {
            occurrences(pair_effects(s, i, j, radius), x)
        } else {
            0
        },
    decreases n,
{
    if n > 0 {
        lemma_pass_occurrences(s, i, radius, n - 1, j, x);
        lemma_occurrences_concat(pass_effects(s, i, radius, n - 1), pair_effects(s, i, n - 1, radius), x);
    }
}

/// Over a whole proximity pass for the session at index `i`, a session `j`
/// that enters its aura gets exactly one arrival notice for it, it gets
/// exactly one arrival notice for `j`, and the hook is told once; a session
/// that leaves gets exactly one departure notice, as does `i`, and the hook
/// is told once. Ids are distinct, as in a well-formed registry.
pub proof fn lemma_pass_notifies_once(s: Seq<Session>, i: int, j: int, radius: u32)
    requires
        0 <= i < s.len(),
        0 <= j < s.len(),
        i != j,
        !s[i].departed,
        !s[j].departed,
        forall|a: int, b: int| 0 <= a < s.len() && 0 <= b < s.len() && a != b ==> s[a].id != s[b].id,
    ensures
        !aura_member(s, i, j) && within_radius(s[i].pos.at, s[j].pos.at, radius) ==> {
            &&& occurrences(
                pass_effects(s, i, radius, s.len() as int),
                send(seq![s[j].id], MessageView::UserJoined { id: s[i].id, avatar: s[i].avatar@, name: s[i].name@ }),
            ) == 1
            &&& occurrences(
                pass_effects(s, i, radius, s.len() as int),
                send(seq![s[i].id], MessageView::UserJoined { id: s[j].id, avatar: s[j].avatar@, name: s[j].name@ }),
            ) == 1
            &&& occurrences(
                pass_effects(s, i, radius, s.len() as int),
                EffectView::AuraEntered { user: s[i].id, other: s[j].id },
            ) == 1
        },
        aura_member(s, i, j) && !within_radius(s[i].pos.at, s[j].pos.at, radius) ==> {
            &&& occurrences(
                pass_effects(s, i, radius, s.len() as int),
                send(seq![s[j].id], MessageView::UserLeft { id: s[i].id }),
            ) == 1
            &&& occurrences(
                pass_effects(s, i, radius, s.len() as int),
                send(seq![s[i].id], MessageView::UserLeft { id: s[j].id }),
            ) == 1
            &&& occurrences(
                pass_effects(s, i, radius, s.len() as int),
                EffectView::AuraLeft { user: s[i].id, other: s[j].id },
            ) == 1
        },
{
    let n = s.len() as int;
    let ui = s[i].id;
    let uj = s[j].id;
    let xs = seq![
        send(seq![uj], MessageView::UserJoined { id: ui, avatar: s[i].avatar@, name: s[i].name@ }),
        send(seq![ui], MessageView::UserJoined { id: uj, avatar: s[j].avatar@, name: s[j].name@ }),
        EffectView::AuraEntered { user: ui, other: uj },
        send(seq![uj], MessageView::UserLeft { id: ui }),
        send(seq![ui], MessageView::UserLeft { id: uj }),
        EffectView::AuraLeft { user: ui, other: uj },
    ];
    assert forall|t: int| 0 <= t < 6 implies occurrences(pass_effects(s, i, radius, n), #[trigger] xs[t])
        == occurrences(pair_effects(s, i, j, radius), xs[t]) by {
        let x = xs[t];
        assert forall|k: int| 0 <= k < n && k != j implies occurrences(
            #[trigger] pair_effects(s, i, k, radius),
            x,
        ) == 0 by {
            let e = pair_effects(s, i, k, radius);
            if k != i {
                assert(s[k].id != uj);
                assert(s[k].id != ui);
                assert(seq![s[k].id][0] != seq![uj][0]);
                assert(seq![s[k].id] != seq![uj]);
            }
            assert forall|q: int| 0 <= q < e.len() implies e[q] != x by {
                if k != i {
                    assert(seq![s[k].id] != seq![uj]);
                }
            }
            lemma_occurrences_none(e, x);
        }
        lemma_pass_occurrences(s, i, radius, n, j, x);
    }
    let e = pair_effects(s, i, j, radius);
    assert(seq![uj] != seq![ui]) by {
        assert(seq![uj][0] != seq![ui][0]);
    }
    if !aura_member(s, i, j) && within_radius(s[i].pos.at, s[j].pos.at, radius) {
        lemma_occurrences_one(e, xs[0], 0);
        lemma_occurrences_one(e, xs[1], 2);
        lemma_occurrences_one(e, xs[2], 4);
        assert(occurrences(pass_effects(s, i, radius, n), xs[0]) == 1);
        assert(occurrences(pass_effects(s, i, radius, n), xs[1]) == 1);
        assert(occurrences(pass_effects(s, i, radius, n), xs[2]) == 1);
    }
    if aura_member(s, i, j) && !within_radius(s[i].pos.at, s[j].pos.at, radius) {
        lemma_occurrences_one(e, xs[3], 0);
        lemma_occurrences_one(e, xs[4], 1);
        lemma_occurrences_one(e, xs[5], 2);
        assert(occurrences(pass_effects(s, i, radius, n), xs[3]) == 1);
        assert(occurrences(pass_effects(s, i, radius, n), xs[4]) == 1);
        assert(occurrences(pass_effects(s, i, radius, n), xs[5]) == 1);
    }
}

/// Without an override from the chat hook, a chat line is relayed verbatim
/// after the sender's name, whatever the line and however often it is sent.
pub proof fn lemma_chat_relayed_verbatim(others: Seq<i32>, user: i32, name: Seq<char>, msg: Seq<char>)
    ensures
        chat_effects(others, user, name, msg, None) == seq![
            send(others, MessageView::ChatSend { from: user, text: name + ": "@ + msg }),
        ],
{
}

impl Bureau {
    pub open spec fn wf(&self) -> bool {
        &&& self.registry.wf()
        &&& self.registry.max_players <= i32::MAX
    }

    /// The ids of all sessions but `user`.
    pub open spec fn others(&self, user: i32) -> Seq<i32> {
        without(self.registry.ids(), user)
    }

    /// A world server with no session.
    pub fn new(options: BureauOptions) -> (r: Bureau)
        ensures
            r.wf(),
            r.options == options,
            r.registry.sessions@.len() == 0,
            r.registry.max_players == (if options.max_players < 0 {
                0
            } else {
                options.max_players as int
            }),
    {
        let cap: usize = if options.max_players < 0 {
            0
        } else {
            options.max_players as usize
        };
        Bureau { registry: SessionRegistry::new(cap), options }
    }

    /// Recipients of an application-specific message from `user` with
    /// `target` and `strategy`; `None` where the message is dropped.
    pub open spec fn appl_targets(&self, user: i32, target: i32, strategy: u8) -> Option<Seq<i32>> {
        if target == NO_TARGET {
            if strategy == 0 || strategy == 3 || strategy == 5 {
                Some(self.registry.ids())
            } else if strategy == 1 || strategy == 4 || strategy == 6 {
                Some(self.others(user))
            } else if strategy == 2 && self.registry.sessions@.len() > 0 {
                Some(seq![self.registry.sessions@[0].id])
            } else {
                None
            }
        } else if strategy == 0 {
            Some(seq![user] + self.registry.aura_seq(user))
        } else if strategy == 1 {
            Some(self.registry.aura_seq(user))
        } else if strategy == 2 {
            if self.registry.has(target) {
                Some(seq![target])
            } else {
                None
            }
        } else if strategy == 3 {
            Some(self.registry.ids())
        } else if strategy == 4 {
            Some(self.others(user))
        } else {
            None
        }
    }

    /// The name of session `user` (meaningful where it is registered).
    pub open spec fn name_of(&self, user: i32) -> Seq<char> {
        self.registry.sessions@[self.registry.index_of(user)].name@
    }

    /// The routing table of application-specific messages. With no target,
    /// strategies 0, 3 and 5 reach every session, 1, 4 and 6 every session
    /// but the sender, 2 the master alone, and any other none. With a target,
    /// 0 reaches the sender and its aura, 1 its aura, 2 the target alone where
    /// it is registered, 3 every session, sender included, 4 every session
    /// but the sender, and any other none.
    pub proof fn lemma_routing_table(&self, user: i32, target: i32, strategy: u8)
        requires
            self.wf(),
        ensures
            forall|x: i32| #[trigger] self.others(user).contains(x) == (self.registry.ids().contains(x) && x != user),
            target == NO_TARGET && (strategy == 0 || strategy == 3 || strategy == 5) ==> self.appl_targets(
                user,
                target,
                strategy,
            ) == Some(self.registry.ids()),
            target == NO_TARGET && (strategy == 1 || strategy == 4 || strategy == 6) ==> self.appl_targets(
                user,
                target,
                strategy,
            ) == Some(self.others(user)),
            target == NO_TARGET && strategy == 2 && self.registry.sessions@.len() > 0 ==> self.appl_targets(
                user,
                target,
                strategy,
            ) == Some(seq![self.registry.sessions@[0].id]),
            target == NO_TARGET && strategy > 6 ==> self.appl_targets(user, target, strategy) == None::<Seq<i32>>,
            target != NO_TARGET && strategy == 0 ==> self.appl_targets(user, target, strategy) == Some(
                seq![user] + self.registry.aura_seq(user),
            ),
            target != NO_TARGET && strategy == 1 ==> self.appl_targets(user, target, strategy) == Some(
                self.registry.aura_seq(user),
            ),
            target != NO_TARGET && strategy == 2 && self.registry.has(target) ==> self.appl_targets(
                user,
                target,
                strategy,
            ) == Some(seq![target]),
            target != NO_TARGET && strategy == 3 ==> self.appl_targets(user, target, strategy) == Some(
                self.registry.ids(),
            ),
            target != NO_TARGET && strategy == 4 ==> self.appl_targets(user, target, strategy) == Some(
                self.others(user),
            ),
            target != NO_TARGET && strategy > 4 ==> self.appl_targets(user, target, strategy) == None::<Seq<i32>>,
    {
        assert forall|x: i32| #[trigger] self.others(user).contains(x) == (self.registry.ids().contains(x) && x != user) by {
            lemma_without_contains(self.registry.ids(), user, x);
        }
    }

    /// The ids of all sessions, in registry order.
    fn all_ids(&self) -> (r: Vec<i32>)
        ensures
            r@ == self.registry.ids(),
    {
        let sessions = &self.registry.sessions;
        let mut r: Vec<i32> = Vec::new();
        let mut k: usize = 0;
        while k < sessions.len()
            invariant
                sessions == &self.registry.sessions,
                k <= sessions@.len(),
                r@ == self.registry.ids().take(k as int),
            decreases sessions@.len() - k,
        {
            r.push(sessions[k].id);
            k = k + 1;
            assert(r@ =~= self.registry.ids().take(k as int));
        }
        assert(r@ =~= self.registry.ids());
        r
    }

    /// The ids of all sessions but `user`, in registry order.
    fn other_ids(&self, user: i32) -> (r: Vec<i32>)
        ensures
            r@ == self.others(user),
    {
        let sessions = &self.registry.sessions;
        let ghost ids = self.registry.ids();
        let mut r: Vec<i32> = Vec::new();
        let mut k: usize = 0;
        while k < sessions.len()
            invariant
                sessions == &self.registry.sessions,
                ids == self.registry.ids(),
                k <= sessions@.len(),
                r@ == without(ids.take(k as int), user),
            decreases sessions@.len() - k,
        {
            assert(ids.take(k + 1).drop_last() =~= ids.take(k as int));
            if sessions[k].id != user {
                r.push(sessions[k].id);
            }
            k = k + 1;
        }
        assert(ids.take(k as int) =~= ids);
        r
    }

    /// The aura of `user`, in its own order.
    fn aura_ids(&self, user: i32) -> (r: Vec<i32>)
        requires
            self.wf(),
        ensures
            r@ == self.registry.aura_seq(user),
    {
        match self.registry.aura_of(user) {
            Ok(v) => {
                proof {
                    let i = self.registry.index_of(user);
                    assert(self.registry.sessions@[i].id == user);
                }
                v
            },
            Err(_) => Vec::new(),
        }
    }

    /// `msg` to every session.
    pub fn send_to_all(&self, msg: Message) -> (e: Effect)
        ensures
            e@ == send(self.registry.ids(), msg@),
    {
        Effect::Send { to: self.all_ids(), msg }
    }

    /// `msg` to every session but `user`.
    pub fn send_to_others(&self, user: i32, msg: Message) -> (e: Effect)
        ensures
            e@ == send(self.others(user), msg@),
    {
        Effect::Send { to: self.other_ids(user), msg }
    }

    /// `msg` to the aura of `user`, not to `user` itself.
    pub fn send_to_aura(&self, user: i32, msg: Message) -> (e: Effect)
        requires
            self.wf(),
        ensures
            e@ == send(self.registry.aura_seq(user), msg@),
    {
        Effect::Send { to: self.aura_ids(user), msg }
    }

    /// `msg` to `user` and then to its aura.
    pub fn send_to_aura_inclusive(&self, user: i32, msg: Message) -> (e: Effect)
        requires
            self.wf(),
        ensures
            e@ == send(seq![user] + self.registry.aura_seq(user), msg@),
    {
        let aura = self.aura_ids(user);
        let mut to: Vec<i32> = Vec::new();
        to.push(user);
        let mut k: usize = 0;
        while k < aura.len()
            invariant
                k <= aura@.len(),
                to@ == seq![user] + aura@.take(k as int),
            decreases aura@.len() - k,
        {
            to.push(aura[k]);
            k = k + 1;
            assert(to@ =~= seq![user] + aura@.take(k as int));
        }
        assert(aura@.take(k as int) =~= aura@);
        Effect::Send { to, msg }
    }

    /// The proximity pass for `user`: checks it against every other session,
    /// puts pairs within the aura radius into each other's aura and takes
    /// pairs beyond it out, with the notices and hook notifications of each
    /// change. Costs one distance per registered session.
    pub fn update_aura(&mut self, user: i32) -> (r: Vec<Effect>)
        requires
            old(self).wf(),
        ensures
            final(self).wf(),
            final(self).options == old(self).options,
            final(self).registry.sessions@.len() == old(self).registry.sessions@.len(),
            final(self).registry.max_players == old(self).registry.max_players,
            final(self).registry.next_id == old(self).registry.next_id,
            forall|k: int|
                0 <= k < old(self).registry.sessions@.len() ==> same_but_aura(
                    #[trigger] final(self).registry.sessions@[k],
                    old(self).registry.sessions@[k],
                ),
            !old(self).registry.has(user) ==> r@.len() == 0 && final(self).registry.sessions@
                == old(self).registry.sessions@,
            old(self).registry.has(user) ==> effects_view(r@) == pass_effects(
                old(self).registry.sessions@,
                old(self).registry.index_of(user),
                old(self).options.aura_radius,
                old(self).registry.sessions@.len() as int,
            ),
            old(self).registry.has(user) ==> forall|a: int, b: int|
                0 <= a < old(self).registry.sessions@.len() && 0 <= b
                    < old(self).registry.sessions@.len() ==> #[trigger] final(self).registry.member(
                    a,
                    b,
                ) == member_after_pass(
                    old(self).registry.sessions@,
                    old(self).registry.index_of(user),
                    old(self).options.aura_radius,
                    a,
                    b,
                ),
    {
        let ghost old_reg = self.registry;
        let ghost old_options = self.options;
        let radius = self.options.aura_radius;
        let mut r: Vec<Effect> = Vec::new();
        let i = match self.registry.index(user) {
            Some(i) => i,
            None => return r,
        };
        let n = self.registry.sessions.len();
        let mut j: usize = 0;
        while j < n
            invariant
                self.wf(),
                self.options.aura_radius == radius,
                self.options == old_options,
                old_reg.wf(),
                n == old_reg.sessions@.len(),
                i < n,
                j <= n,
                self.registry.sessions@.len() == n,
                self.registry.max_players == old_reg.max_players,
                self.registry.next_id == old_reg.next_id,
                forall|k: int|
                    0 <= k < n ==> same_but_aura(
                        #[trigger] self.registry.sessions@[k],
                        old_reg.sessions@[k],
                    ),
                forall|a: int, b: int|
                    0 <= a < n && 0 <= b < n ==> #[trigger] self.registry.member(a, b) == (if (a
                        == i && b != i && b < j) || (b == i && a != i && a < j) {
                        member_after_pass(old_reg.sessions@, i as int, radius, a, b)
                    } else {
                        old_reg.member(a, b)
                    }),
                effects_view(r@) == pass_effects(old_reg.sessions@, i as int, radius, j as int),
            decreases n - j,
        {
            let ghost prev = effects_view(r@);
            let ghost before = self.registry;
            if j != i && !self.registry.sessions[i].departed && !self.registry.sessions[j].departed {
                let near = self.registry.sessions[i].pos.at.is_within(
                    &self.registry.sessions[j].pos.at,
                    radius,
                );
                let uid = self.registry.sessions[i].id;
                let oid = self.registry.sessions[j].id;
                let linked = self.registry.is_in_aura(uid, oid);
                proof {
                    assert(self.registry.sessions@[i as int].id == uid);
                    assert(linked == self.registry.member(i as int, j as int)) by {
                        if self.registry.in_aura(uid, oid) {
                            let w = choose|w: int|
                                0 <= w < n && #[trigger] self.registry.sessions@[w].id == uid
                                    && self.registry.sessions@[w].aura@.contains(oid);
                            self.registry.lemma_unique_index(w, i as int);
                        }
                    }
                    assert(old_reg.sessions@[i as int].pos == self.registry.sessions@[i as int].pos);
                    assert(old_reg.sessions@[j as int].pos == self.registry.sessions@[j as int].pos);
                }
                if linked && !near {
                    self.registry.unlink(i, j);
                    r.push(Effect::Send { to: one(oid), msg: Message::UserLeft { id: uid } });
                    r.push(Effect::Send { to: one(uid), msg: Message::UserLeft { id: oid } });
                    r.push(Effect::AuraLeft { user: uid, other: oid });
                    proof {
                        assert(old_reg.member(i as int, j as int));
                        assert(effects_view(r@) =~= prev + seq![
                            send(seq![oid], MessageView::UserLeft { id: uid }),
                            send(seq![uid], MessageView::UserLeft { id: oid }),
                            EffectView::AuraLeft { user: uid, other: oid },
                        ]);
                    }
                } else if !linked && near {
                    self.registry.link(i, j);
                    let u = &self.registry.sessions[i];
                    let o = &self.registry.sessions[j];
                    let e1 = Effect::Send {
                        to: one(oid),
                        msg: Message::UserJoined { id: uid, avatar: u.avatar.clone(), name: u.name.clone() },
                    };
                    let e2 = Effect::Send {
                        to: one(oid),
                        msg: Message::CharacterUpdate { from: uid, data: u.character_data.clone() },
                    };
                    let e3 = Effect::Send {
                        to: one(uid),
                        msg: Message::UserJoined { id: oid, avatar: o.avatar.clone(), name: o.name.clone() },
                    };
                    let e4 = Effect::Send {
                        to: one(uid),
                        msg: Message::CharacterUpdate { from: oid, data: o.character_data.clone() },
                    };
                    r.push(e1);
                    r.push(e2);
                    r.push(e3);
                    r.push(e4);
                    r.push(Effect::AuraEntered { user: uid, other: oid });
                    proof {
                        let ou = old_reg.sessions@[i as int];
                        let oo = old_reg.sessions@[j as int];
                        assert(!old_reg.member(i as int, j as int));
                        assert(same_but_aura(self.registry.sessions@[i as int], ou));
                        assert(same_but_aura(self.registry.sessions@[j as int], oo));
                        assert(effects_view(r@) =~= prev + seq![
                            send(seq![oid], MessageView::UserJoined { id: uid, avatar: ou.avatar@, name: ou.name@ }),
                            send(seq![oid], MessageView::CharacterUpdate { from: uid, data: ou.character_data@ }),
                            send(seq![uid], MessageView::UserJoined { id: oid, avatar: oo.avatar@, name: oo.name@ }),
                            send(seq![uid], MessageView::CharacterUpdate { from: oid, data: oo.character_data@ }),
                            EffectView::AuraEntered { user: uid, other: oid },
                        ]);
                    }
                } else {
                    assert(effects_view(r@) =~= prev);
                }
            } else {
                assert(effects_view(r@) =~= prev);
                proof {
                    if j != i {
                        assert(old_reg.member(i as int, j as int) == old_reg.member(j as int, i as int));
                        assert(same_but_aura(self.registry.sessions@[i as int], old_reg.sessions@[i as int]));
                        assert(same_but_aura(self.registry.sessions@[j as int], old_reg.sessions@[j as int]));
                        assert(old_reg.sessions@[i as int].departed ==> old_reg.sessions@[i as int].aura@.len() == 0);
                        assert(old_reg.sessions@[j as int].departed ==> old_reg.sessions@[j as int].aura@.len() == 0);
                        assert(!old_reg.member(i as int, j as int));
                    }
                }
            }
            proof {
                assert(effects_view(r@) =~= prev + pair_effects(old_reg.sessions@, i as int, j as int, radius));
                assert(pass_effects(old_reg.sessions@, i as int, radius, j + 1) == pass_effects(
                    old_reg.sessions@,
                    i as int,
                    radius,
                    j as int,
                ) + pair_effects(old_reg.sessions@, i as int, j as int, radius));
            }
            j = j + 1;
        }
        r
    }

    /// Relays a chat line from `user` to every other session, after the chat
    /// hook has answered with `reply` (see `chat_effects`).
    pub fn chat_send(&self, user: i32, msg: String, reply: Option<String>) -> (r: Vec<Effect>)
        requires
            self.wf(),
        ensures
            !self.registry.has(user) ==> r@.len() == 0,
            self.registry.has(user) ==> effects_view(r@) == chat_effects(
                self.others(user),
                user,
                self.name_of(user),
                msg@,
                reply,
            ),
    {
        let mut r: Vec<Effect> = Vec::new();
        let i = match self.registry.index(user) {
            Some(i) => i,
            None => return r,
        };
        let text = match reply {
            None => msg,
            Some(o) => {
                if o.as_str().is_empty() {
                    let notice = String::from_str("Your message was hidden.");
                    r.push(Effect::Send { to: one(user), msg: Message::Notice { text: notice } });
                    assert(effects_view(r@) =~= chat_effects(self.others(user), user, self.name_of(user), msg@, Some(o)));
                    return r;
                }
                let mut notice = String::from_str("Your message was replaced with '");
                notice.append(o.as_str());
                notice.append("'");
                r.push(Effect::Send { to: one(user), msg: Message::Notice { text: notice } });
                o
            },
        };
        let mut line = self.registry.sessions[i].name.clone();
        line.append(": ");
        line.append(text.as_str());
        let e = self.send_to_others(user, Message::ChatSend { from: user, text: line });
        r.push(e);
        proof {
            assert(effects_view(r@) =~= chat_effects(self.others(user), user, self.name_of(user), msg@, reply));
        }
        r
    }

    /// Relays an application-specific message from `user` to the recipients
    /// that `target` and `strategy` select (see `appl_targets`); drops it
    /// where they select none.
    pub fn appl_specific(
        &self,
        user: i32,
        strategy: u8,
        target: i32,
        method: String,
        strarg: String,
        intarg: i32,
    ) -> (r: Vec<Effect>)
        requires
            self.wf(),
        ensures
            effects_view(r@) == match self.appl_targets(user, target, strategy) {
                Some(t) => seq![
                    send(
                        t,
                        MessageView::ApplSpecific {
                            from: user,
                            target,
                            strategy,
                            method: method@,
                            strarg: strarg@,
                            intarg,
                        },
                    ),
                ],
                None => Seq::<EffectView>::empty(),
            },
    {
        let msg = Message::ApplSpecific { from: user, target, strategy, method, strarg, intarg };
        let mut r: Vec<Effect> = Vec::new();
        if target == NO_TARGET {
            if strategy == 0 || strategy == 3 || strategy == 5 {
                r.push(self.send_to_all(msg));
            } else if strategy == 1 || strategy == 4 || strategy == 6 {
                r.push(self.send_to_others(user, msg));
            } else if strategy == 2 {
                match self.registry.master() {
                    Some(m) => r.push(Effect::Send { to: one(m), msg }),
                    None => {},
                }
            }
        } else if strategy == 0 {
            r.push(self.send_to_aura_inclusive(user, msg));
        } else if strategy == 1 {
            r.push(self.send_to_aura(user, msg));
        } else if strategy == 2 {
            if self.registry.contains(target) {
                r.push(Effect::Send { to: one(target), msg });
            }
        } else if strategy == 3 {
            r.push(self.send_to_all(msg));
        } else if strategy == 4 {
            r.push(self.send_to_others(user, msg));
        }
        assert(effects_view(r@) =~= match self.appl_targets(user, target, strategy) {
            Some(t) => seq![
                send(
                    t,
                    MessageView::ApplSpecific {
                        from: user,
                        target,
                        strategy,
                        method: method@,
                        strarg: strarg@,
                        intarg,
                    },
                ),
            ],
            None => Seq::<EffectView>::empty(),
        });
        r
    }

    /// Delivers a private line from `user` to `receiver`; dropped where
    /// `receiver` names no session.
    pub fn private_chat(&self, user: i32, receiver: i32, text: String) -> (r: Vec<Effect>)
        requires
            self.wf(),
        ensures
            self.registry.has(receiver) ==> effects_view(r@) == seq![
                send(seq![receiver], MessageView::PrivateChat { from: user, text: text@ }),
            ],
            !self.registry.has(receiver) ==> r@.len() == 0,
    {
        let mut r: Vec<Effect> = Vec::new();
        if self.registry.contains(receiver) {
            r.push(Effect::Send { to: one(receiver), msg: Message::PrivateChat { from: user, text } });
            assert(effects_view(r@) =~= seq![
                send(seq![receiver], MessageView::PrivateChat { from: user, text: text@ }),
            ]);
        }
        r
    }

    /// Sets the display name of `user` and tells every other session.
    pub fn name_change(&mut self, user: i32, name: String) -> (r: Vec<Effect>)
        requires
            old(self).wf(),
        ensures
            final(self).wf(),
            final(self).options == old(self).options,
            !old(self).registry.has(user) ==> r@.len() == 0 && final(self).registry == old(self).registry,
            old(self).registry.has(user) ==> {
                &&& final(self).registry.sessions@ == old(self).registry.sessions@.update(
                    old(self).registry.index_of(user),
                    (Session { name: name, ..old(self).registry.sessions@[old(self).registry.index_of(user)] }),
                )
                &&& final(self).registry.max_players == old(self).registry.max_players
                &&& final(self).registry.next_id == old(self).registry.next_id
                &&& effects_view(r@) == seq![
                    send(old(self).others(user), MessageView::NameChange { from: user, name: name@ }),
                ]
            },
    {
        let ghost old_reg = self.registry;
        let mut r: Vec<Effect> = Vec::new();
        let i = match self.registry.index(user) {
            Some(i) => i,
            None => return r,
        };
        let e = self.send_to_others(user, Message::NameChange { from: user, name: name.clone() });
        r.push(e);
        self.registry.sessions[i].name = name;
        proof {
            SessionRegistry::lemma_wf_same_shape(&old_reg, &self.registry);
            assert(effects_view(r@) =~= seq![e@]);
        }
        r
    }

    /// Sets the avatar of `user` and tells every other session.
    pub fn avatar_change(&mut self, user: i32, avatar: String) -> (r: Vec<Effect>)
        requires
            old(self).wf(),
        ensures
            final(self).wf(),
            final(self).options == old(self).options,
            !old(self).registry.has(user) ==> r@.len() == 0 && final(self).registry == old(self).registry,
            old(self).registry.has(user) ==> {
                &&& final(self).registry.sessions@ == old(self).registry.sessions@.update(
                    old(self).registry.index_of(user),
                    (Session { avatar: avatar, ..old(self).registry.sessions@[old(self).registry.index_of(user)] }),
                )
                &&& final(self).registry.max_players == old(self).registry.max_players
                &&& final(self).registry.next_id == old(self).registry.next_id
                &&& effects_view(r@) == seq![
                    send(old(self).others(user), MessageView::AvatarChange { from: user, avatar: avatar@ }),
                ]
            },
    {
        let ghost old_reg = self.registry;
        let mut r: Vec<Effect> = Vec::new();
        let i = match self.registry.index(user) {
            Some(i) => i,
            None => return r,
        };
        let e = self.send_to_others(user, Message::AvatarChange { from: user, avatar: avatar.clone() });
        r.push(e);
        self.registry.sessions[i].avatar = avatar;
        proof {
            SessionRegistry::lemma_wf_same_shape(&old_reg, &self.registry);
            assert(effects_view(r@) =~= seq![e@]);
        }
        r
    }

    /// Sets the character description of `user` and relays it to its aura.
    pub fn character_update(&mut self, user: i32, character_data: String) -> (r: Vec<Effect>)
        requires
            old(self).wf(),
        ensures
            final(self).wf(),
            final(self).options == old(self).options,
            !old(self).registry.has(user) ==> r@.len() == 0 && final(self).registry == old(self).registry,
            old(self).registry.has(user) ==> {
                &&& final(self).registry.sessions@ == old(self).registry.sessions@.update(
                    old(self).registry.index_of(user),
                    (Session {
                        character_data: character_data,
                        ..old(self).registry.sessions@[old(self).registry.index_of(user)]
                    }),
                )
                &&& final(self).registry.max_players == old(self).registry.max_players
                &&& final(self).registry.next_id == old(self).registry.next_id
                &&& effects_view(r@) == seq![
                    send(
                        old(self).registry.aura_seq(user),
                        MessageView::CharacterUpdate { from: user, data: character_data@ },
                    ),
                ]
            },
    {
        let ghost old_reg = self.registry;
        let mut r: Vec<Effect> = Vec::new();
        let i = match self.registry.index(user) {
            Some(i) => i,
            None => return r,
        };
        let e = self.send_to_aura(user, Message::CharacterUpdate { from: user, data: character_data.clone() });
        r.push(e);
        self.registry.sessions[i].character_data = character_data;
        proof {
            SessionRegistry::lemma_wf_same_shape(&old_reg, &self.registry);
            assert(effects_view(r@) =~= seq![e@]);
        }
        r
    }

    /// Moves `user` to `pos`, runs its proximity pass, and relays the move to
    /// its aura as it stands after the pass.
    pub fn position_update(&mut self, user: i32, pos: Position) -> (r: Vec<Effect>)
        requires
            old(self).wf(),
        ensures
            final(self).wf(),
            final(self).options == old(self).options,
            final(self).registry.max_players == old(self).registry.max_players,
            final(self).registry.next_id == old(self).registry.next_id,
            !old(self).registry.has(user) ==> r@.len() == 0 && final(self).registry == old(self).registry,
            old(self).registry.has(user) ==> {
                let i = old(self).registry.index_of(user);
                let moved = old(self).registry.sessions@.update(
                    i,
                    (Session { pos: pos, ..old(self).registry.sessions@[i] }),
                );
                &&& final(self).registry.sessions@.len() == moved.len()
                &&& forall|k: int|
                    0 <= k < moved.len() ==> same_but_aura(#[trigger] final(self).registry.sessions@[k], moved[k])
                &&& forall|a: int, b: int|
                    0 <= a < moved.len() && 0 <= b < moved.len() ==> #[trigger] final(self).registry.member(a, b)
                        == member_after_pass(moved, i, old(self).options.aura_radius, a, b)
                &&& effects_view(r@) == pass_effects(moved, i, old(self).options.aura_radius, moved.len() as int)
                    + seq![send(final(self).registry.aura_seq(user), MessageView::PositionUpdate { from: user, pos })]
            },
    {
        let ghost old_reg = self.registry;
        let i = match self.registry.index(user) {
            Some(i) => i,
            None => return Vec::new(),
        };
        self.registry.sessions[i].pos = pos;
        let ghost mid = self.registry;
        proof {
            SessionRegistry::lemma_wf_same_shape(&old_reg, &self.registry);
            assert(mid.sessions@[i as int].id == user);
            mid.lemma_unique_index(i as int, mid.index_of(user));
        }
        let mut r = self.update_aura(user);
        let e = self.send_to_aura(user, Message::PositionUpdate { from: user, pos });
        let ghost pass = effects_view(r@);
        r.push(e);
        proof {
            assert(effects_view(r@) =~= pass + seq![e@]);
        }
        r
    }

    /// Moves and turns `user`, runs its proximity pass, and relays the
    /// transform to its aura as it stands after the pass.
    pub fn transform_update(&mut self, user: i32, rot: Mat3, pos: Position) -> (r: Vec<Effect>)
        requires
            old(self).wf(),
        ensures
            final(self).wf(),
            final(self).options == old(self).options,
            final(self).registry.max_players == old(self).registry.max_players,
            final(self).registry.next_id == old(self).registry.next_id,
            !old(self).registry.has(user) ==> r@.len() == 0 && final(self).registry == old(self).registry,
            old(self).registry.has(user) ==> {
                let i = old(self).registry.index_of(user);
                let moved = old(self).registry.sessions@.update(
                    i,
                    (Session { rot: rot, pos: pos, ..old(self).registry.sessions@[i] }),
                );
                &&& final(self).registry.sessions@.len() == moved.len()
                &&& forall|k: int|
                    0 <= k < moved.len() ==> same_but_aura(#[trigger] final(self).registry.sessions@[k], moved[k])
                &&& forall|a: int, b: int|
                    0 <= a < moved.len() && 0 <= b < moved.len() ==> #[trigger] final(self).registry.member(a, b)
                        == member_after_pass(moved, i, old(self).options.aura_radius, a, b)
                &&& effects_view(r@) == pass_effects(moved, i, old(self).options.aura_radius, moved.len() as int)
                    + seq![
                    send(
                        final(self).registry.aura_seq(user),
                        MessageView::TransformUpdate { from: user, rot: rot.data@, pos },
                    ),
                ]
            },
    {
        let ghost old_reg = self.registry;
        let i = match self.registry.index(user) {
            Some(i) => i,
            None => return Vec::new(),
        };
        self.registry.sessions[i].rot = rot;
        self.registry.sessions[i].pos = pos;
        assert(self.registry.sessions@ =~= old_reg.sessions@.update(
            i as int,
            (Session { rot: rot, pos: pos, ..old_reg.sessions@[i as int] }),
        ));
        let ghost mid = self.registry;
        proof {
            SessionRegistry::lemma_wf_same_shape(&old_reg, &self.registry);
            assert(mid.sessions@[i as int].id == user);
            mid.lemma_unique_index(i as int, mid.index_of(user));
        }
        let mut r = self.update_aura(user);
        let e = self.send_to_aura(user, Message::TransformUpdate { from: user, rot, pos });
        let ghost pass = effects_view(r@);
        r.push(e);
        proof {
            assert(effects_view(r@) =~= pass + seq![e@]);
        }
        r
    }

    /// Records the identity that `user` sent after its handshake; tells it
    /// that it is not the master where another session is, and broadcasts the
    /// new user count.
    pub fn new_user(&mut self, user: i32, name: String, avatar: String) -> (r: Vec<Effect>)
        requires
            old(self).wf(),
        ensures
            final(self).wf(),
            final(self).options == old(self).options,
            !old(self).registry.has(user) ==> r@.len() == 0 && final(self).registry == old(self).registry,
            old(self).registry.has(user) ==> {
                let i = old(self).registry.index_of(user);
                &&& final(self).registry.sessions@ == old(self).registry.sessions@.update(
                    i,
                    (Session { name: name, avatar: avatar, ..old(self).registry.sessions@[i] }),
                )
                &&& final(self).registry.max_players == old(self).registry.max_players
                &&& final(self).registry.next_id == old(self).registry.next_id
                &&& effects_view(r@) == (if old(self).registry.sessions@[0].id != user {
                    seq![send(seq![user], MessageView::SetMaster { flag: 0 })]
                } else {
                    Seq::empty()
                }) + seq![
                    send(
                        old(self).registry.ids(),
                        MessageView::UserCount { count: old(self).registry.sessions@.len() as i32 },
                    ),
                ]
            },
    {
        let ghost old_reg = self.registry;
        let mut r: Vec<Effect> = Vec::new();
        let i = match self.registry.index(user) {
            Some(i) => i,
            None => return r,
        };
        self.registry.sessions[i].name = name;
        self.registry.sessions[i].avatar = avatar;
        proof {
            SessionRegistry::lemma_wf_same_shape(&old_reg, &self.registry);
            assert(self.registry.ids() =~= old_reg.ids());
        }
        match self.registry.master() {
            Some(m) => {
                if m != user {
                    r.push(Effect::Send { to: one(user), msg: Message::SetMaster { flag: 0 } });
                }
            },
            None => {},
        }
        let ghost first = effects_view(r@);
        let e = self.broadcast_user_count();
        r.push(e);
        proof {
            assert(effects_view(r@) =~= first + seq![e@]);
            assert(first =~= (if old_reg.sessions@[0].id != user {
                seq![send(seq![user], MessageView::SetMaster { flag: 0 })]
            } else {
                Seq::empty()
            }));
        }
        r
    }

    /// Disconnects `user`: takes it out of the aura of each of its peers,
    /// each of which is told that it left, then notifies the scripting host.
    /// The session stays registered, marked departed, until
    /// `purge_departed` removes it. Nothing happens to a session that has
    /// already departed.
    pub fn disconnect_user(&mut self, user: i32) -> (r: Vec<Effect>)
        requires
            old(self).wf(),
        ensures
            final(self).wf(),
            final(self).options == old(self).options,
            final(self).registry.max_players == old(self).registry.max_players,
            final(self).registry.next_id == old(self).registry.next_id,
            !old(self).registry.has(user) || old(self).registry.sessions@[old(self).registry.index_of(
                user,
            )].departed ==> r@.len() == 0 && final(self).registry == old(self).registry,
            old(self).registry.has(user) && !old(self).registry.sessions@[old(self).registry.index_of(
                user,
            )].departed ==> {
                let i = old(self).registry.index_of(user);
                let before = old(self).registry;
                &&& effects_view(r@) == departures(before.aura_seq(user), user) + seq![
                    EffectView::Removed { id: user },
                ]
                &&& final(self).registry.sessions@.len() == before.sessions@.len()
                &&& forall|k: int|
                    0 <= k < before.sessions@.len() && k != i ==> same_but_aura(
                        #[trigger] final(self).registry.sessions@[k],
                        before.sessions@[k],
                    ) && final(self).registry.sessions@[k].aura@ == without(before.sessions@[k].aura@, user)
                &&& same_but_aura(
                    final(self).registry.sessions@[i],
                    (Session { connected: false, departed: true, ..before.sessions@[i] }),
                )
                &&& final(self).registry.sessions@[i].aura@.len() == 0
                &&& forall|a: int, b: int|
                    0 <= a < before.sessions@.len() && 0 <= b < before.sessions@.len()
                        ==> #[trigger] final(self).registry.member(a, b) == (before.member(a, b) && a != i
                        && b != i)
                &&& forall|x: i32| #[trigger] final(self).registry.has(x) == before.has(x)
                &&& forall|x: i32, y: i32|
                    #[trigger] final(self).registry.in_aura(x, y) == (before.in_aura(x, y) && x != user && y
                        != user)
            },
    {
        let ghost old_reg = self.registry;
        let mut r: Vec<Effect> = Vec::new();
        let i = match self.registry.index(user) {
            Some(i) => i,
            None => return r,
        };
        if self.registry.sessions[i].departed {
            return r;
        }
        let peers = self.aura_ids(user);
        let ghost n = old_reg.sessions@.len() as int;
        let ghost ii = i as int;
        assert(peers@ == old_reg.sessions@[ii].aura@);
        let mut k: usize = 0;
        while k < peers.len()
            invariant
                ii == i as int,
                self.wf(),
                old_reg.wf(),
                self.options == old(self).options,
                self.registry.sessions@.len() == n,
                n == old_reg.sessions@.len(),
                self.registry.max_players == old_reg.max_players,
                self.registry.next_id == old_reg.next_id,
                i < n,
                old_reg.sessions@[ii].id == user,
                peers@ == old_reg.sessions@[ii].aura@,
                k <= peers@.len(),
                forall|m: int|
                    0 <= m < n ==> same_but_aura(#[trigger] self.registry.sessions@[m], old_reg.sessions@[m]),
                forall|a: int, b: int|
                    0 <= a < n && 0 <= b < n ==> #[trigger] self.registry.member(a, b) == (old_reg.member(a, b)
                        && !(a == ii && peers@.take(k as int).contains(old_reg.sessions@[b].id)) && !(b
                        == ii && peers@.take(k as int).contains(old_reg.sessions@[a].id))),
                effects_view(r@) == departures(peers@.take(k as int), user),
                forall|m: int|
                    0 <= m < n && m != ii ==> #[trigger] self.registry.sessions@[m].aura@ == (if peers@.take(
                        k as int,
                    ).contains(old_reg.sessions@[m].id) {
                        without(old_reg.sessions@[m].aura@, user)
                    } else {
                        old_reg.sessions@[m].aura@
                    }),
            decreases peers@.len() - k,
        {
            let other = peers[k];
            proof {
                assert(old_reg.sessions@[ii].aura@[k as int] == other);
                assert(old_reg.has(other));
                assert forall|m: int| 0 <= m < n implies #[trigger] self.registry.sessions@[m].id == old_reg.sessions@[m].id by {}
                let w = choose|w: int| 0 <= w < n && #[trigger] old_reg.sessions@[w].id == other;
                assert(self.registry.sessions@[w].id == other);
            }
            let j = match self.registry.index(other) {
                Some(j) => j,
                None => return r,
            };
            proof {
                assert(old_reg.sessions@[j as int].id == other);
                assert(old_reg.member(ii, j as int));
                assert(!peers@.take(k as int).contains(other)) by {
                    if peers@.take(k as int).contains(other) {
                        let q = choose|q: int| 0 <= q < k && peers@.take(k as int)[q] == other;
                        assert(peers@[q] == peers@[k as int]);
                        assert(old_reg.sessions@[ii].aura@.no_duplicates());
                    }
                }
                assert(j != i);
            }
            let ghost prev_r = effects_view(r@);
            self.registry.unlink(i, j);
            r.push(Effect::Send { to: one(other), msg: Message::UserLeft { id: user } });
            proof {
                let t1 = peers@.take(k + 1);
                assert(t1 =~= peers@.take(k as int).push(other));
                let e_view = send(seq![other], MessageView::UserLeft { id: user });
                assert(departures(t1, user) =~= departures(peers@.take(k as int), user).push(e_view));
                assert(effects_view(r@) =~= prev_r.push(e_view));
                assert forall|y: i32| t1.contains(y) == (peers@.take(k as int).contains(y) || y == other) by {
                    lemma_push_contains(peers@.take(k as int), other, y);
                }
                assert forall|m: int| 0 <= m < n && m != ii implies #[trigger] self.registry.sessions@[m].aura@ == (
                if t1.contains(old_reg.sessions@[m].id) {
                    without(old_reg.sessions@[m].aura@, user)
                } else {
                    old_reg.sessions@[m].aura@
                }) by {
                    if old_reg.sessions@[m].id == other {
                        old_reg.lemma_unique_index(m, j as int);
                    }
                }
                assert forall|a: int, b: int| 0 <= a < n && 0 <= b < n implies #[trigger] self.registry.member(a, b)
                    == (old_reg.member(a, b) && !(a == ii && t1.contains(old_reg.sessions@[b].id)) && !(b == ii
                    && t1.contains(old_reg.sessions@[a].id))) by {
                    if a == ii && old_reg.sessions@[b].id == other {
                        old_reg.lemma_unique_index(b, j as int);
                    }
                    if b == ii && old_reg.sessions@[a].id == other {
                        old_reg.lemma_unique_index(a, j as int);
                    }
                }
            }
            k = k + 1;
        }
        proof {
            assert(peers@.take(k as int) =~= peers@);
            assert(old_reg.aura_seq(user) == peers@) by {
                old_reg.lemma_unique_index(ii, old_reg.index_of(user));
            }
            if self.registry.sessions@[ii].aura@.len() > 0 {
                let x = self.registry.sessions@[ii].aura@[0];
                assert(self.registry.has(x));
                let b = choose|b: int| 0 <= b < n && #[trigger] self.registry.sessions@[b].id == x;
                assert(self.registry.member(ii, b));
                assert(old_reg.sessions@[b].id == x);
                assert(old_reg.member(ii, b));
                assert(peers@.contains(x));
            }
            assert forall|a: int| 0 <= a < n implies !self.registry.member(a, ii) by {
                assert(self.registry.member(a, ii) == self.registry.member(ii, a));
                if self.registry.member(ii, a) {
                    assert(old_reg.member(ii, a));
                    assert(peers@.contains(old_reg.sessions@[a].id));
                }
            }
        }
        proof {
            assert forall|m: int| 0 <= m < n && m != ii implies #[trigger] self.registry.sessions@[m].aura@
                == without(old_reg.sessions@[m].aura@, user) by {
                if !peers@.contains(old_reg.sessions@[m].id) {
                    if old_reg.sessions@[m].aura@.contains(user) {
                        assert(old_reg.member(m, ii));
                        assert(old_reg.member(ii, m));
                    }
                    lemma_without_absent(old_reg.sessions@[m].aura@, user);
                }
            }
        }
        let ghost mid = self.registry;
        self.registry.mark_departed(i);
        let ghost prev_r = effects_view(r@);
        r.push(Effect::Removed { id: user });
        proof {
            assert(effects_view(r@) =~= prev_r + seq![EffectView::Removed { id: user }]);
            let fin = self.registry;
            assert forall|m: int| 0 <= m < n implies #[trigger] fin.sessions@[m].id == old_reg.sessions@[m].id
                && fin.sessions@[m].aura@ == mid.sessions@[m].aura@ by {}
            assert forall|a: int, b: int| 0 <= a < n && 0 <= b < n implies #[trigger] fin.member(a, b)
                == (old_reg.member(a, b) && a != ii && b != ii) by {
                assert(fin.member(a, b) == mid.member(a, b));
                if a == ii && old_reg.member(a, b) {
                    assert(peers@.contains(old_reg.sessions@[b].id));
                }
                if b == ii && old_reg.member(a, b) {
                    assert(peers@.contains(old_reg.sessions@[a].id));
                }
            }
            assert forall|x: i32| #[trigger] fin.has(x) == old_reg.has(x) by {
                if fin.has(x) {
                    let a = choose|a: int| 0 <= a < n && #[trigger] fin.sessions@[a].id == x;
                    assert(old_reg.sessions@[a].id == x);
                }
                if old_reg.has(x) {
                    let a = choose|a: int| 0 <= a < n && #[trigger] old_reg.sessions@[a].id == x;
                    assert(fin.sessions@[a].id == x);
                }
            }
            assert forall|x: i32, y: i32|
                #[trigger] fin.in_aura(x, y) == (old_reg.in_aura(x, y) && x != user && y != user) by {
                fin.lemma_in_aura_member(x, y);
                old_reg.lemma_in_aura_member(x, y);
                if fin.has(x) && fin.has(y) {
                    let a = fin.index_of(x);
                    let b = fin.index_of(y);
                    assert(fin.sessions@[a].id == x);
                    assert(fin.sessions@[b].id == y);
                    old_reg.lemma_unique_index(a, old_reg.index_of(x));
                    old_reg.lemma_unique_index(b, old_reg.index_of(y));
                    if x == user {
                        old_reg.lemma_unique_index(a, ii);
                    }
                    if y == user {
                        old_reg.lemma_unique_index(b, ii);
                    }
                }
            }
        }
        r
    }

    /// Disconnects every flagged session, in registry order (see
    /// `disconnect_user`). Every session stays registered; flagged ones are
    /// left departed.
    #[verifier::rlimit(60)]
    pub fn disconnect_flagged(&mut self) -> (r: Vec<Effect>)
        requires
            old(self).wf(),
        ensures
            final(self).wf(),
            final(self).options == old(self).options,
            final(self).registry.max_players == old(self).registry.max_players,
            final(self).registry.next_id == old(self).registry.next_id,
            final(self).registry.sessions@.len() == old(self).registry.sessions@.len(),
            forall|k: int|
                0 <= k < old(self).registry.sessions@.len() ==> #[trigger] final(self).registry.sessions@[k].id
                    == old(self).registry.sessions@[k].id,
            forall|k: int|
                0 <= k < old(self).registry.sessions@.len() ==> if is_flagged(
                    #[trigger] old(self).registry.sessions@[k],
                ) {
                    final(self).registry.sessions@[k].departed && !final(self).registry.sessions@[k].connected
                        && final(self).registry.sessions@[k].aura@.len() == 0
                } else {
                    same_but_aura(final(self).registry.sessions@[k], old(self).registry.sessions@[k])
                },
            forall|x: i32, y: i32|
                #[trigger] final(self).registry.in_aura(x, y) == (old(self).registry.in_aura(x, y)
                    && !gone_ids(old(self).registry.sessions@, old(self).registry.sessions@.len() as int).contains(x)
                    && !gone_ids(old(self).registry.sessions@, old(self).registry.sessions@.len() as int).contains(y)),
            effects_view(r@) == cascade(old(self).registry.sessions@, old(self).registry.sessions@.len() as int),
    {
        let ghost old_reg = self.registry;
        let ghost os = old_reg.sessions@;
        let ghost n = os.len() as int;
        let mut r: Vec<Effect> = Vec::new();
        let mut k: usize = 0;
        while k < self.registry.sessions.len()
            invariant
                self.wf(),
                old_reg.wf(),
                os == old_reg.sessions@,
                n == os.len(),
                self.options == old(self).options,
                self.registry.max_players == old_reg.max_players,
                self.registry.next_id == old_reg.next_id,
                self.registry.sessions@.len() == n,
                k <= n,
                forall|m: int| 0 <= m < n ==> #[trigger] self.registry.sessions@[m].id == os[m].id,
                forall|m: int|
                    0 <= m < k ==> if is_flagged(#[trigger] os[m]) {
                        self.registry.sessions@[m].departed && !self.registry.sessions@[m].connected
                            && self.registry.sessions@[m].aura@.len() == 0
                    } else {
                        same_but_aura(self.registry.sessions@[m], os[m])
                    },
                forall|m: int|
                    k <= m < n ==> same_but_aura(#[trigger] self.registry.sessions@[m], os[m])
                        && self.registry.sessions@[m].aura@ == without_all(os[m].aura@, gone_ids(os, k as int)),
                forall|x: i32, y: i32|
                    #[trigger] self.registry.in_aura(x, y) == (old_reg.in_aura(x, y) && !gone_ids(
                        os,
                        k as int,
                    ).contains(x) && !gone_ids(os, k as int).contains(y)),
                effects_view(r@) == cascade(os, k as int),
            decreases n - k,
        {
            let ghost before = self.registry;
            let ghost before_r = effects_view(r@);
            let ghost gk = gone_ids(os, k as int);
            let ghost ki = k as int;
            proof {
                assert(same_but_aura(self.registry.sessions@[ki], os[ki]));
            }
            if !self.registry.sessions[k].connected && !self.registry.sessions[k].departed {
                let id = self.registry.sessions[k].id;
                proof {
                    assert(before.sessions@[ki].id == id);
                    before.lemma_unique_index(ki, before.index_of(id));
                    assert(before.aura_seq(id) == without_all(os[ki].aura@, gk));
                }
                let mut more = self.disconnect_user(id);
                let ghost more_v = effects_view(more@);
                r.append(&mut more);
                proof {
                    assert(gone_ids(os, ki + 1) == gk.push(id));
                    assert(cascade(os, ki + 1) == cascade(os, ki) + departures(without_all(os[ki].aura@, gk), id)
                        + seq![EffectView::Removed { id }]);
                    assert(effects_view(r@) =~= cascade(os, ki + 1)) by {
                        assert(effects_view(r@) =~= before_r + more_v);
                    }
                    assert forall|m: int| 0 <= m < n implies #[trigger] self.registry.sessions@[m].id == os[m].id by {
                        if m != ki {
                            assert(same_but_aura(self.registry.sessions@[m], before.sessions@[m]));
                        }
                    }
                    assert forall|m: int| 0 <= m < ki + 1 implies if is_flagged(#[trigger] os[m]) {
                        self.registry.sessions@[m].departed && !self.registry.sessions@[m].connected
                            && self.registry.sessions@[m].aura@.len() == 0
                    } else {
                        same_but_aura(self.registry.sessions@[m], os[m])
                    } by {
                        if m != ki {
                            assert(same_but_aura(self.registry.sessions@[m], before.sessions@[m]));
                            if is_flagged(os[m]) {
                                assert(before.sessions@[m].aura@.len() == 0);
                                assert(without(before.sessions@[m].aura@, id) == before.sessions@[m].aura@);
                            }
                        }
                    }
                    assert forall|m: int| ki + 1 <= m < n implies same_but_aura(
                        #[trigger] self.registry.sessions@[m],
                        os[m],
                    ) && self.registry.sessions@[m].aura@ == without_all(os[m].aura@, gone_ids(os, ki + 1)) by {
                        assert(same_but_aura(self.registry.sessions@[m], before.sessions@[m]));
                        assert(gk.push(id).drop_last() =~= gk);
                    }
                    assert forall|x: i32, y: i32|
                        #[trigger] self.registry.in_aura(x, y) == (old_reg.in_aura(x, y) && !gone_ids(
                            os,
                            ki + 1,
                        ).contains(x) && !gone_ids(os, ki + 1).contains(y)) by {
                        lemma_push_contains(gk, id, x);
                        lemma_push_contains(gk, id, y);
                        assert(before.in_aura(x, y) == (old_reg.in_aura(x, y) && !gk.contains(x) && !gk.contains(y)));
                    }
                }
            } else {
                proof {
                    assert(gone_ids(os, ki + 1) == gk);
                    assert(cascade(os, ki + 1) == cascade(os, ki));
                }
            }
            k = k + 1;
        }
        r
    }

    /// Removes every departed session from the registry, then, where any
    /// was, broadcasts the new user count once.
    pub fn purge_departed(&mut self) -> (r: Vec<Effect>)
        requires
            old(self).wf(),
        ensures
            final(self).wf(),
            final(self).options == old(self).options,
            forall|k: int|
                0 <= k < final(self).registry.sessions@.len() ==> !#[trigger] final(self).registry.sessions@[k].departed,
            forall|x: i32| #[trigger] final(self).registry.has(x) ==> old(self).registry.has(x),
            forall|m: int|
                0 <= m < old(self).registry.sessions@.len() && !#[trigger] old(self).registry.sessions@[m].departed
                    ==> final(self).registry.has(old(self).registry.sessions@[m].id),
            forall|a: int, m: int|
                0 <= a < final(self).registry.sessions@.len() && 0 <= m < old(self).registry.sessions@.len()
                    && #[trigger] final(self).registry.sessions@[a].id == #[trigger] old(self).registry.sessions@[m].id
                    ==> final(self).registry.sessions@[a] == old(self).registry.sessions@[m],
            forall|x: i32, y: i32|
                #[trigger] final(self).registry.in_aura(x, y) == old(self).registry.in_aura(x, y),
            (forall|m: int|
                0 <= m < old(self).registry.sessions@.len() ==> !#[trigger] old(self).registry.sessions@[m].departed)
                ==> r@.len() == 0 && final(self).registry == old(self).registry,
            !(forall|m: int|
                0 <= m < old(self).registry.sessions@.len() ==> !#[trigger] old(self).registry.sessions@[m].departed)
                ==> effects_view(r@) == seq![
                send(
                    final(self).registry.ids(),
                    MessageView::UserCount { count: final(self).registry.sessions@.len() as i32 },
                ),
            ],
    {
        let ghost old_reg = self.registry;
        let mut removed = false;
        let mut k: usize = 0;
        while k < self.registry.sessions.len()
            invariant
                self.wf(),
                old_reg.wf(),
                self.options == old(self).options,
                k <= self.registry.sessions@.len(),
                forall|a: int| 0 <= a < k ==> !#[trigger] self.registry.sessions@[a].departed,
                forall|x: i32| #[trigger] self.registry.has(x) ==> old_reg.has(x),
                forall|x: i32, y: i32| #[trigger] self.registry.in_aura(x, y) == old_reg.in_aura(x, y),
                forall|m: int|
                    0 <= m < old_reg.sessions@.len() && !#[trigger] old_reg.sessions@[m].departed
                        ==> self.registry.has(old_reg.sessions@[m].id),
                forall|a: int, m: int|
                    0 <= a < self.registry.sessions@.len() && 0 <= m < old_reg.sessions@.len()
                        && #[trigger] self.registry.sessions@[a].id == #[trigger] old_reg.sessions@[m].id
                        ==> self.registry.sessions@[a] == old_reg.sessions@[m],
                !removed ==> self.registry == old_reg,
                removed ==> exists|m: int| 0 <= m < old_reg.sessions@.len() && #[trigger] old_reg.sessions@[m].departed,
            decreases self.registry.sessions@.len() - k,
        {
            if !self.registry.sessions[k].departed {
                k = k + 1;
            } else {
                let ghost before = self.registry;
                let ghost ki = k as int;
                let ghost nn = before.sessions@.len() as int;
                proof {
                    assert(before.sessions@[ki].aura@.len() == 0);
                    assert forall|a: int| 0 <= a < nn implies !before.member(a, ki) by {
                        assert(before.member(a, ki) == before.member(ki, a));
                    }
                    let id = before.sessions@[ki].id;
                    assert(before.has(id));
                    assert(old_reg.has(id));
                    let w = choose|w: int| 0 <= w < old_reg.sessions@.len() && #[trigger] old_reg.sessions@[w].id == id;
                    assert(old_reg.sessions@[w].departed);
                }
                self.registry.remove_at(k);
                removed = true;
                proof {
                    let fin = self.registry;
                    let gid = before.sessions@[ki].id;
                    assert forall|a: int| 0 <= a < nn - 1 implies #[trigger] fin.sessions@[a] == before.sessions@[skip(ki, a)] by {}
                    assert forall|a: int| 0 <= a < k implies !#[trigger] fin.sessions@[a].departed by {
                        assert(fin.sessions@[a] == before.sessions@[a]);
                    }
                    assert forall|x: i32| #[trigger] fin.has(x) implies old_reg.has(x) by {
                        let a = choose|a: int| 0 <= a < nn - 1 && #[trigger] fin.sessions@[a].id == x;
                        assert(before.sessions@[skip(ki, a)].id == x);
                        assert(before.has(x));
                    }
                    assert forall|x: i32| #[trigger] fin.has(x) == (before.has(x) && x != gid) by {
                        if fin.has(x) {
                            let a = choose|a: int| 0 <= a < nn - 1 && #[trigger] fin.sessions@[a].id == x;
                            assert(before.sessions@[skip(ki, a)].id == x);
                            if x == gid {
                                before.lemma_unique_index(skip(ki, a), ki);
                            }
                        }
                        if before.has(x) && x != gid {
                            let w = choose|w: int| 0 <= w < nn && #[trigger] before.sessions@[w].id == x;
                            assert(w != ki);
                            let na = if w < ki { w } else { w - 1 };
                            assert(skip(ki, na) == w);
                            assert(fin.sessions@[na].id == x);
                        }
                    }
                    assert forall|a: int, m: int|
                        0 <= a < nn - 1 && 0 <= m < old_reg.sessions@.len()
                            && #[trigger] fin.sessions@[a].id == #[trigger] old_reg.sessions@[m].id
                        implies fin.sessions@[a] == old_reg.sessions@[m] by {
                        assert(fin.sessions@[a] == before.sessions@[skip(ki, a)]);
                    }
                    assert forall|m: int|
                        0 <= m < old_reg.sessions@.len() && !#[trigger] old_reg.sessions@[m].departed
                        implies fin.has(old_reg.sessions@[m].id) by {
                        let x = old_reg.sessions@[m].id;
                        assert(before.has(x));
                        if x == gid {
                            assert(before.sessions@[ki] == old_reg.sessions@[m]);
                        }
                    }
                    assert forall|x: i32, y: i32| #[trigger] fin.in_aura(x, y) == old_reg.in_aura(x, y) by {
                        fin.lemma_in_aura_member(x, y);
                        before.lemma_in_aura_member(x, y);
                        assert(before.in_aura(x, y) == old_reg.in_aura(x, y));
                        if before.has(x) && before.has(y) {
                            let bx = before.index_of(x);
                            let by_ = before.index_of(y);
                            assert(before.sessions@[bx].id == x);
                            assert(before.sessions@[by_].id == y);
                            if x == gid {
                                before.lemma_unique_index(bx, ki);
                            }
                            if y == gid {
                                before.lemma_unique_index(by_, ki);
                                assert(!before.member(bx, ki));
                            }
                            if x != gid && y != gid {
                                let fa = if bx < ki { bx } else { bx - 1 };
                                let fb = if by_ < ki { by_ } else { by_ - 1 };
                                assert(skip(ki, fa) == bx);
                                assert(skip(ki, fb) == by_);
                                assert(fin.sessions@[fa].id == x);
                                assert(fin.sessions@[fb].id == y);
                                fin.lemma_unique_index(fa, fin.index_of(x));
                                fin.lemma_unique_index(fb, fin.index_of(y));
                            }
                        }
                    }
                }
            }
        }
        let mut r: Vec<Effect> = Vec::new();
        if removed {
            let e = self.broadcast_user_count();
            r.push(e);
            proof {
                assert(effects_view(r@) =~= seq![e@]);
            }
        } else {
            proof {
                if !(forall|m: int|
                    0 <= m < old_reg.sessions@.len() ==> !#[trigger] old_reg.sessions@[m].departed) {
                    let m = choose|m: int| 0 <= m < old_reg.sessions@.len() && #[trigger] old_reg.sessions@[m].departed;
                    assert(!self.registry.sessions@[m].departed);
                }
            }
        }
        r
    }

    /// The user count, to every session.
    pub fn broadcast_user_count(&self) -> (e: Effect)
        requires
            self.wf(),
        ensures
            e@ == send(
                self.registry.ids(),
                MessageView::UserCount { count: self.registry.sessions@.len() as i32 },
            ),
    {
        let count = self.registry.len() as i32;
        self.send_to_all(Message::UserCount { count })
    }
}

} // verus!
