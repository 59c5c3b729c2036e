//! The session registry: every connected session of one world, keyed by a
//! unique id, with the symmetric aura relation between them.
use vstd::prelude::*;

use crate::geometry::{Mat3, Position, Vec3};

verus! {

/// One connected, handshake-validated user.
#[derive(Debug)]
pub struct Session {
    /// Unique while the session is registered; assigned at admission.
    pub id: i32,
    pub name: String,
    pub avatar: String,
    pub pos: Position,
    pub rot: Mat3,
    /// Opaque character description, relayed verbatim to peers.
    pub character_data: String,
    /// Ids of the sessions currently within proximity of this one.
    pub aura: Vec<i32>,
    /// Once false, the session is disconnected at the end of the tick.
    pub connected: bool,
    /// The session has left: its peers and the scripting host have been told,
    /// and it waits to be removed from the registry.
    pub departed: bool,
}

/// Why a session could not be admitted.
#[derive(Clone, Copy, Debug, PartialEq, Eq, Structural)]
pub enum RegisterError {
    /// The registry holds its maximum number of sessions.
    Full,
    /// Every id has been handed out.
    IdsExhausted,
}

/// The id does not name a registered session.
#[derive(Clone, Copy, Debug, PartialEq, Eq, Structural)]
pub struct NoSuchSession;

/// All fields of `a` and `b` but the aura are equal.
pub open spec fn same_but_aura(a: Session, b: Session) -> bool {
    &&& a.id == b.id
    &&& a.name == b.name
    &&& a.avatar == b.avatar
    &&& a.pos == b.pos
    &&& a.rot == b.rot
    &&& a.character_data == b.character_data
    &&& a.connected == b.connected
    &&& a.departed == b.departed
}

/// In `s`, the session at index `j` is in the aura of the one at index `i`.
pub open spec fn aura_member(s: Seq<Session>, i: int, j: int) -> bool {
    s[i].aura@.contains(s[j].id)
}

/// A session just admitted under `id`: no identity yet, at the origin, with
/// an empty aura.
pub open spec fn is_fresh(s: Session, id: i32) -> bool {
    &&& s.id == id
    &&& s.name@ == Seq::<char>::empty()
    &&& s.avatar@ == Seq::<char>::empty()
    &&& s.pos.at == (Vec3 { x: 0, y: 0, z: 0 })
    &&& s.pos.bits@ == seq![0u32, 0, 0]
    &&& s.rot.data@ == seq![0u32, 0, 0, 0, 0, 0, 0, 0, 0]
    &&& s.character_data@ == Seq::<char>::empty()
    &&& s.aura@ == Seq::<i32>::empty()
    &&& s.connected
    &&& !s.departed
}

/// `s` without the occurrences of `x`, order kept.
pub open spec fn without(s: Seq<i32>, x: i32) -> Seq<i32>
    decreases s.len(),
{
    if s.len() == 0 {
        Seq::empty()
    } else if s.last() == x {
        without(s.drop_last(), x)
    } else {
        without(s.drop_last(), x).push(s.last())
    }
}

/// Removing what is absent changes nothing.
pub proof fn lemma_without_absent(s: Seq<i32>, x: i32)
    requires
        !s.contains(x),
    ensures
        without(s, x) == s,
    decreases s.len(),
{
    if s.len() > 0 {
        let p = s.drop_last();
        assert(!p.contains(x)) by {
            if p.contains(x) {
                let q = choose|q: int| 0 <= q < p.len() && p[q] == x;
                assert(s[q] == x);
            }
        }
        lemma_without_absent(p, x);
        assert(s.last() != x) by {
            assert(s[s.len() - 1] == s.last());
        }
        assert(s =~= p.push(s.last()));
    }
}

/// In a list of distinct ids, removing the element at index `k` removes
/// every occurrence of its value.
pub proof fn lemma_remove_is_without(s: Seq<i32>, k: int)
    requires
        s.no_duplicates(),
        0 <= k < s.len(),
    ensures
        s.remove(k) == without(s, s[k]),
    decreases s.len(),
{
    let x = s[k];
    let p = s.drop_last();
    assert(p.no_duplicates()) by {
        assert forall|a: int, b: int| 0 <= a < p.len() && 0 <= b < p.len() && a != b implies p[a] != p[b] by {
            assert(s[a] != s[b]);
        }
    }
    if k == s.len() - 1 {
        assert(!p.contains(x)) by {
            if p.contains(x) {
                let q = choose|q: int| 0 <= q < p.len() && p[q] == x;
                assert(s[q] == s[k]);
            }
        }
        lemma_without_absent(p, x);
        assert(s.remove(k) =~= p);
    } else {
        lemma_remove_is_without(p, k);
        assert(p[k] == x);
        assert(s.last() != x) by {
            assert(s[s.len() - 1] != s[k]);
        }
        assert(s.remove(k) =~= p.remove(k).push(s.last()));
    }
}

/// Removes `x` from a list of distinct ids that holds it.
fn remove_id(v: &mut Vec<i32>, x: i32)
    requires
        old(v)@.no_duplicates(),
        old(v)@.contains(x),
    ensures
        final(v)@.no_duplicates(),
        forall|y: i32| final(v)@.contains(y) <==> (old(v)@.contains(y) && y != x),
        forall|k: int| 0 <= k < final(v)@.len() ==> old(v)@.contains(#[trigger] final(v)@[k]),
        final(v)@ == without(old(v)@, x),
{
    let ghost o = v@;
    let mut k: usize = 0;
    while k < v.len() && v[k] != x
        invariant
            v@ == o,
            k <= o.len(),
            o.contains(x),
            forall|m: int| 0 <= m < k ==> o[m] != x,
        decreases o.len() - k,
    {
        k = k + 1;
    }
    proof {
        if k == o.len() {
            let m = choose|m: int| 0 <= m < o.len() && o[m] == x;
            assert(o[m] != x);
        }
    }
    assert(k < o.len() && o[k as int] == x);
    v.remove(k);
    proof {
        lemma_remove_is_without(o, k as int);
        let s = v@;
        assert(s.len() == o.len() - 1);
        assert forall|m: int| 0 <= m < s.len() implies #[trigger] s[m] == (if m < k { o[m] } else { o[m + 1] }) by {}
        assert forall|y: i32| s.contains(y) <==> (o.contains(y) && y != x) by {
            if s.contains(y) {
                let m = choose|m: int| 0 <= m < s.len() && s[m] == y;
                if m < k { assert(o[m] == y); } else { assert(o[m + 1] == y); }
            }
            if o.contains(y) && y != x {
                let m = choose|m: int| 0 <= m < o.len() && o[m] == y;
                if m < k { assert(s[m] == y); } else { assert(m != k); assert(s[m - 1] == y); }
            }
        }
        assert forall|m: int| 0 <= m < s.len() implies o.contains(#[trigger] s[m]) by {
            if m < k { assert(o[m] == s[m]); } else { assert(o[m + 1] == s[m]); }
        }
        assert forall|p: int, q: int| 0 <= p < s.len() && 0 <= q < s.len() && p != q implies s[p] != s[q] by {
            let op = if p < k { p } else { p + 1 };
            let oq = if q < k { q } else { q + 1 };
            assert(o[op] != o[oq]);
        }
    }
}

/// The sessions of one world.
#[derive(Debug)]
pub struct SessionRegistry {
    /// Ordered by ascending id.
    pub sessions: Vec<Session>,
    /// Admission is refused once this many sessions are registered.
    pub max_players: usize,
    /// The id the next admitted session gets.
    pub next_id: i32,
}

impl SessionRegistry {
    /// The ids of the registered sessions, in registry order.
    pub open spec fn ids(&self) -> Seq<i32> {
        self.sessions@.map_values(|s: Session| s.id)
    }

    /// `id` names a registered session.
    pub open spec fn has(&self, id: i32) -> bool {
        exists|i: int| 0 <= i < self.sessions@.len() && #[trigger] self.sessions@[i].id == id
    }

    /// The session at index `j` is in the aura of the session at index `i`.
    pub open spec fn member(&self, i: int, j: int) -> bool {
        aura_member(self.sessions@, i, j)
    }

    /// Session `b` is in the aura of session `a`, both named by id.
    pub open spec fn in_aura(&self, a: i32, b: i32) -> bool {
        exists|i: int|
            0 <= i < self.sessions@.len() && #[trigger] self.sessions@[i].id == a
                && self.sessions@[i].aura@.contains(b)
    }

    /// The index of the session with id `id` (meaningful where `has(id)`).
    pub open spec fn index_of(&self, id: i32) -> int {
        choose|i: int| 0 <= i < self.sessions@.len() && #[trigger] self.sessions@[i].id == id
    }

    /// The aura of session `id`, empty where `id` names no session.
    pub open spec fn aura_seq(&self, id: i32) -> Seq<i32> {
        if self.has(id) {
            self.sessions@[self.index_of(id)].aura@
        } else {
            Seq::empty()
        }
    }

    /// Well-formedness: ids unique and ascending, below `next_id`; every aura
    /// holds distinct registered ids other than its owner's; a departed
    /// session has an empty aura; and the aura relation is symmetric.
    pub open spec fn wf(&self) -> bool {
        &&& self.sessions@.len() <= self.max_players
        &&& 1 <= self.next_id
        &&& forall|i: int, j: int|
            0 <= i < j < self.sessions@.len() ==> self.sessions@[i].id < self.sessions@[j].id
        &&& forall|i: int|
            0 <= i < self.sessions@.len() ==> 1 <= #[trigger] self.sessions@[i].id < self.next_id
        &&& forall|i: int|
            0 <= i < self.sessions@.len() ==> (#[trigger] self.sessions@[i]).aura@.no_duplicates()
        &&& forall|i: int|
            0 <= i < self.sessions@.len() && (#[trigger] self.sessions@[i]).departed
                ==> self.sessions@[i].aura@.len() == 0
        &&& forall|i: int, k: int|
            0 <= i < self.sessions@.len() && 0 <= k < self.sessions@[i].aura@.len() ==> {
                &&& #[trigger] self.sessions@[i].aura@[k] != self.sessions@[i].id
                &&& self.has(self.sessions@[i].aura@[k])
            }
        &&& forall|i: int, j: int|
            0 <= i < self.sessions@.len() && 0 <= j < self.sessions@.len() ==> (#[trigger] self.member(
                i,
                j,
            ) <==> #[trigger] self.member(j, i))
    }

    /// An empty registry that admits at most `max_players` sessions.
    pub fn new(max_players: usize) -> (r: SessionRegistry)
        ensures
            r.wf(),
            r.sessions@.len() == 0,
            r.max_players == max_players,
    {
        SessionRegistry { sessions: Vec::new(), max_players, next_id: 1 }
    }

    /// The number of registered sessions.
    pub fn len(&self) -> (r: usize)
        ensures
            r == self.sessions@.len(),
    {
        self.sessions.len()
    }

    /// The registry cannot admit another session.
    pub fn is_full(&self) -> (r: bool)
        ensures
            r == (self.sessions@.len() >= self.max_players),
    {
        self.sessions.len() >= self.max_players
    }

    /// The index of the session with id `id`, if it is registered.
    pub fn find(&self, id: i32) -> (r: Option<usize>)
        requires
            self.wf(),
        ensures
            match r {
                Some(i) => i < self.sessions@.len() && self.sessions@[i as int].id == id,
                None => !self.has(id),
            },
    {
        let mut i: usize = 0;
        while i < self.sessions.len()
            invariant
                i <= self.sessions@.len(),
                forall|k: int| 0 <= k < i ==> self.sessions@[k].id != id,
            decreases self.sessions@.len() - i,
        {
            if self.sessions[i].id == id {
                return Some(i);
            }
            i = i + 1;
        }
        None
    }

    /// The index of the session with id `id`, if it is registered, as
    /// `index_of` gives it.
    pub fn index(&self, id: i32) -> (r: Option<usize>)
        requires
            self.wf(),
        ensures
            match r {
                Some(i) => self.has(id) && i == self.index_of(id) && i < self.sessions@.len()
                    && self.sessions@[i as int].id == id,
                None => !self.has(id),
            },
    {
        let r = self.find(id);
        proof {
            if let Some(i) = r {
                assert(self.sessions@[i as int].id == id);
                let j = self.index_of(id);
                self.lemma_unique_index(i as int, j);
            }
        }
        r
    }

    /// Whether `id` names a registered session.
    pub fn contains(&self, id: i32) -> (r: bool)
        requires
            self.wf(),
        ensures
            r == self.has(id),
    {
        self.find(id).is_some()
    }

    /// Two registries that differ only in fields other than ids and auras
    /// are well-formed together.
    pub proof fn lemma_wf_same_shape(old_reg: &SessionRegistry, new_reg: &SessionRegistry)
        requires
            old_reg.wf(),
            new_reg.sessions@.len() == old_reg.sessions@.len(),
            new_reg.max_players == old_reg.max_players,
            new_reg.next_id == old_reg.next_id,
            forall|k: int|
                0 <= k < old_reg.sessions@.len() ==> (#[trigger] new_reg.sessions@[k]).id
                    == old_reg.sessions@[k].id && new_reg.sessions@[k].aura@
                    == old_reg.sessions@[k].aura@ && (new_reg.sessions@[k].departed
                    ==> old_reg.sessions@[k].departed || new_reg.sessions@[k].aura@.len() == 0),
        ensures
            new_reg.wf(),
            forall|id: i32| new_reg.has(id) == old_reg.has(id),
            forall|a: i32, b: i32| new_reg.in_aura(a, b) == old_reg.in_aura(a, b),
    {
        assert forall|id: i32| new_reg.has(id) == old_reg.has(id) by {
            if old_reg.has(id) {
                let i = choose|i: int|
                    0 <= i < old_reg.sessions@.len() && #[trigger] old_reg.sessions@[i].id == id;
                assert(new_reg.sessions@[i].id == id);
            }
            if new_reg.has(id) {
                let i = choose|i: int|
                    0 <= i < new_reg.sessions@.len() && #[trigger] new_reg.sessions@[i].id == id;
                assert(old_reg.sessions@[i].id == id);
            }
        }
        assert forall|a: i32, b: i32| new_reg.in_aura(a, b) == old_reg.in_aura(a, b) by {
            if old_reg.in_aura(a, b) {
                let i = choose|i: int|
                    0 <= i < old_reg.sessions@.len() && #[trigger] old_reg.sessions@[i].id == a
                        && old_reg.sessions@[i].aura@.contains(b);
                assert(new_reg.sessions@[i].id == a);
            }
            if new_reg.in_aura(a, b) {
                let i = choose|i: int|
                    0 <= i < new_reg.sessions@.len() && #[trigger] new_reg.sessions@[i].id == a
                        && new_reg.sessions@[i].aura@.contains(b);
                assert(old_reg.sessions@[i].id == a);
            }
        }
        assert forall|i: int, j: int|
            0 <= i < new_reg.sessions@.len() && 0 <= j < new_reg.sessions@.len() implies (
            #[trigger] new_reg.member(i, j) <==> #[trigger] new_reg.member(j, i)) by {
            assert(new_reg.member(i, j) == old_reg.member(i, j));
            assert(new_reg.member(j, i) == old_reg.member(j, i));
        }
        assert forall|i: int, k: int|
            0 <= i < new_reg.sessions@.len() && 0 <= k < new_reg.sessions@[i].aura@.len() implies {
            &&& #[trigger] new_reg.sessions@[i].aura@[k] != new_reg.sessions@[i].id
            &&& new_reg.has(new_reg.sessions@[i].aura@[k])
        } by {
            assert(old_reg.sessions@[i].aura@[k] == new_reg.sessions@[i].aura@[k]);
            assert(old_reg.has(old_reg.sessions@[i].aura@[k]));
        }
        assert forall|i: int| 0 <= i < new_reg.sessions@.len() implies (
        #[trigger] new_reg.sessions@[i]).aura@.no_duplicates() by {
            assert(old_reg.sessions@[i].aura@.no_duplicates());
        }
        assert forall|i: int| 0 <= i < new_reg.sessions@.len() implies 1 <= #[trigger] new_reg.sessions@[i].id
            < new_reg.next_id by {
            assert(old_reg.sessions@[i].id == new_reg.sessions@[i].id);
        }
        assert forall|i: int, j: int|
            0 <= i < j < new_reg.sessions@.len() implies new_reg.sessions@[i].id
            < new_reg.sessions@[j].id by {
            assert(old_reg.sessions@[i].id == new_reg.sessions@[i].id);
            assert(old_reg.sessions@[j].id == new_reg.sessions@[j].id);
        }
    }

    /// Registers a new session under a fresh id. Refused when the registry is
    /// full, or when no id is left.
    pub fn register(&mut self) -> (r: Result<i32, RegisterError>)
        requires
            old(self).wf(),
        ensures
            final(self).wf(),
            final(self).max_players == old(self).max_players,
            old(self).sessions@.len() >= old(self).max_players ==> r == Err::<i32, RegisterError>(
                RegisterError::Full,
            ) && *final(self) == *old(self),
            old(self).sessions@.len() < old(self).max_players && old(self).next_id == i32::MAX ==> r
                == Err::<i32, RegisterError>(RegisterError::IdsExhausted) && *final(self) == *old(self),
            old(self).sessions@.len() < old(self).max_players && old(self).next_id < i32::MAX ==> {
                &&& r == Ok::<i32, RegisterError>(old(self).next_id)
                &&& !old(self).has(old(self).next_id)
                &&& final(self).sessions@.len() == old(self).sessions@.len() + 1
                &&& final(self).sessions@.subrange(0, old(self).sessions@.len() as int)
                    == old(self).sessions@
                &&& is_fresh(final(self).sessions@.last(), old(self).next_id)
                &&& final(self).next_id == old(self).next_id + 1
            },
    {
        if self.sessions.len() >= self.max_players {
            return Err(RegisterError::Full);
        }
        if self.next_id == i32::MAX {
            return Err(RegisterError::IdsExhausted);
        }
        let id = self.next_id;
        let ghost old_reg = *self;
        let session = Session {
            id,
            name: String::new(),
            avatar: String::new(),
            pos: Position::origin(),
            rot: Mat3::new(),
            character_data: String::new(),
            aura: Vec::new(),
            connected: true,
            departed: false,
        };
        self.sessions.push(session);
        self.next_id = id + 1;
        proof {
            let n = old_reg.sessions@.len() as int;
            assert(self.sessions@.subrange(0, n) =~= old_reg.sessions@);
            assert forall|k: int| 0 <= k < n implies #[trigger] self.sessions@[k] == old_reg.sessions@[k] by {}
            assert(!old_reg.has(id));
            assert forall|xid: i32| old_reg.has(xid) implies self.has(xid) && xid < id by {
                let i = choose|i: int|
                    0 <= i < old_reg.sessions@.len() && #[trigger] old_reg.sessions@[i].id == xid;
                assert(self.sessions@[i].id == xid);
            }
            assert forall|i: int, k: int|
                0 <= i < self.sessions@.len() && 0 <= k < self.sessions@[i].aura@.len() implies {
                &&& #[trigger] self.sessions@[i].aura@[k] != self.sessions@[i].id
                &&& self.has(self.sessions@[i].aura@[k])
            } by {
                assert(i < n);
                assert(old_reg.has(old_reg.sessions@[i].aura@[k]));
            }
            assert forall|i: int, j: int|
                0 <= i < self.sessions@.len() && 0 <= j < self.sessions@.len() implies (
                #[trigger] self.member(i, j) <==> #[trigger] self.member(j, i)) by {
                if i < n && j < n {
                    assert(self.member(i, j) == old_reg.member(i, j));
                    assert(self.member(j, i) == old_reg.member(j, i));
                } else if i == n && j < n {
                    assert(!self.member(i, j));
                    if self.member(j, i) {
                        let k = choose|k: int|
                            0 <= k < self.sessions@[j].aura@.len() && self.sessions@[j].aura@[k] == id;
                        assert(old_reg.has(old_reg.sessions@[j].aura@[k]));
                    }
                } else if j == n && i < n {
                    assert(!self.member(j, i));
                    if self.member(i, j) {
                        let k = choose|k: int|
                            0 <= k < self.sessions@[i].aura@.len() && self.sessions@[i].aura@[k] == id;
                        assert(old_reg.has(old_reg.sessions@[i].aura@[k]));
                    }
                }
            }
        }
        Ok(id)
    }

    /// The position of session `id`.
    pub fn position(&self, id: i32) -> (r: Result<Position, NoSuchSession>)
        requires
            self.wf(),
        ensures
            match r {
                Ok(p) => self.has(id) && forall|k: int|
                    0 <= k < self.sessions@.len() && #[trigger] self.sessions@[k].id == id
                        ==> self.sessions@[k].pos == p,
                Err(_) => !self.has(id),
            },
    {
        match self.find(id) {
            Some(i) => Ok(self.sessions[i].pos),
            None => Err(NoSuchSession),
        }
    }

    /// The orientation of session `id`.
    pub fn rotation(&self, id: i32) -> (r: Result<Mat3, NoSuchSession>)
        requires
            self.wf(),
        ensures
            match r {
                Ok(m) => self.has(id) && forall|k: int|
                    0 <= k < self.sessions@.len() && #[trigger] self.sessions@[k].id == id
                        ==> self.sessions@[k].rot == m,
                Err(_) => !self.has(id),
            },
    {
        match self.find(id) {
            Some(i) => Ok(self.sessions[i].rot),
            None => Err(NoSuchSession),
        }
    }

    /// The ids in the aura of session `id`.
    pub fn aura_of(&self, id: i32) -> (r: Result<Vec<i32>, NoSuchSession>)
        requires
            self.wf(),
        ensures
            match r {
                Ok(v) => self.has(id) && forall|k: int|
                    0 <= k < self.sessions@.len() && #[trigger] self.sessions@[k].id == id
                        ==> self.sessions@[k].aura@ == v@,
                Err(_) => !self.has(id),
            },
    {
        match self.find(id) {
            Some(i) => {
                let aura = &self.sessions[i].aura;
                let mut v: Vec<i32> = Vec::new();
                let mut k: usize = 0;
                while k < aura.len()
                    invariant
                        k <= aura@.len(),
                        aura@ == self.sessions@[i as int].aura@,
                        v@ == aura@.subrange(0, k as int),
                    decreases aura@.len() - k,
                {
                    v.push(aura[k]);
                    k = k + 1;
                    assert(v@ =~= aura@.subrange(0, k as int));
                }
                assert(v@ =~= aura@);
                Ok(v)
            },
            None => Err(NoSuchSession),
        }
    }

    /// Whether session `b` is in the aura of session `a`.
    pub fn is_in_aura(&self, a: i32, b: i32) -> (r: bool)
        requires
            self.wf(),
        ensures
            r == self.in_aura(a, b),
    {
        match self.find(a) {
            Some(i) => {
                let aura = &self.sessions[i].aura;
                let mut k: usize = 0;
                while k < aura.len()
                    invariant
                        k <= aura@.len(),
                        i < self.sessions@.len(),
                        self.sessions@[i as int].id == a,
                        aura@ == self.sessions@[i as int].aura@,
                        forall|m: int| 0 <= m < k ==> aura@[m] != b,
                    decreases aura@.len() - k,
                {
                    if aura[k] == b {
                        assert(aura@[k as int] == b);
                        assert(self.sessions@[i as int].aura@.contains(b));
                        assert(self.sessions@[i as int].id == a);
                        return true;
                    }
                    k = k + 1;
                }
                proof {
                    if self.in_aura(a, b) {
                        let j = choose|j: int|
                            0 <= j < self.sessions@.len() && #[trigger] self.sessions@[j].id == a
                                && self.sessions@[j].aura@.contains(b);
                        assert(j == i as int) by {
                            if j < i { assert(self.sessions@[j].id < self.sessions@[i as int].id); }
                            if j > i { assert(self.sessions@[i as int].id < self.sessions@[j].id); }
                        }
                    }
                }
                false
            },
            None => false,
        }
    }

    /// Moves session `id` to `pos`.
    pub fn set_position(&mut self, id: i32, pos: Position) -> (r: Result<(), NoSuchSession>)
        requires
            old(self).wf(),
        ensures
            final(self).wf(),
            r is Ok <==> old(self).has(id),
            final(self).sessions@.len() == old(self).sessions@.len(),
            final(self).max_players == old(self).max_players,
            final(self).next_id == old(self).next_id,
            forall|k: int|
                0 <= k < old(self).sessions@.len() ==> #[trigger] final(self).sessions@[k] == (if old(
                    self,
                ).sessions@[k].id == id {
                    (Session { pos: pos, ..old(self).sessions@[k] })
                } else {
                    old(self).sessions@[k]
                }),
    {
        let ghost old_reg = *self;
        match self.find(id) {
            Some(i) => {
                self.sessions[i].pos = pos;
                proof {
                    SessionRegistry::lemma_wf_same_shape(&old_reg, self);
                    assert forall|k: int| 0 <= k < old_reg.sessions@.len() && k != i implies old_reg.sessions@[k].id != id by {
                        if k < i { assert(old_reg.sessions@[k].id < old_reg.sessions@[i as int].id); }
                        if k > i { assert(old_reg.sessions@[i as int].id < old_reg.sessions@[k].id); }
                    }
                }
                Ok(())
            },
            None => Err(NoSuchSession),
        }
    }

    /// Turns session `id` to `rot`.
    pub fn set_rotation(&mut self, id: i32, rot: Mat3) -> (r: Result<(), NoSuchSession>)
        requires
            old(self).wf(),
        ensures
            final(self).wf(),
            r is Ok <==> old(self).has(id),
            final(self).sessions@.len() == old(self).sessions@.len(),
            final(self).max_players == old(self).max_players,
            final(self).next_id == old(self).next_id,
            forall|k: int|
                0 <= k < old(self).sessions@.len() ==> #[trigger] final(self).sessions@[k] == (if old(
                    self,
                ).sessions@[k].id == id {
                    (Session { rot: rot, ..old(self).sessions@[k] })
                } else {
                    old(self).sessions@[k]
                }),
    {
        let ghost old_reg = *self;
        match self.find(id) {
            Some(i) => {
                self.sessions[i].rot = rot;
                proof {
                    SessionRegistry::lemma_wf_same_shape(&old_reg, self);
                    assert forall|k: int| 0 <= k < old_reg.sessions@.len() && k != i implies old_reg.sessions@[k].id != id by {
                        if k < i { assert(old_reg.sessions@[k].id < old_reg.sessions@[i as int].id); }
                        if k > i { assert(old_reg.sessions@[i as int].id < old_reg.sessions@[k].id); }
                    }
                }
                Ok(())
            },
            None => Err(NoSuchSession),
        }
    }

    /// Marks session `id` as disconnected; at the end of the tick its peers
    /// and the scripting host are told, and then it is removed.
    pub fn disconnect(&mut self, id: i32) -> (r: Result<(), NoSuchSession>)
        requires
            old(self).wf(),
        ensures
            final(self).wf(),
            r is Ok <==> old(self).has(id),
            final(self).sessions@.len() == old(self).sessions@.len(),
            final(self).max_players == old(self).max_players,
            final(self).next_id == old(self).next_id,
            forall|k: int|
                0 <= k < old(self).sessions@.len() ==> #[trigger] final(self).sessions@[k] == (if old(
                    self,
                ).sessions@[k].id == id {
                    (Session { connected: false, ..old(self).sessions@[k] })
                } else {
                    old(self).sessions@[k]
                }),
    {
        let ghost old_reg = *self;
        match self.find(id) {
            Some(i) => {
                self.sessions[i].connected = false;
                proof {
                    SessionRegistry::lemma_wf_same_shape(&old_reg, self);
                    assert forall|k: int| 0 <= k < old_reg.sessions@.len() && k != i implies old_reg.sessions@[k].id != id by {
                        if k < i { assert(old_reg.sessions@[k].id < old_reg.sessions@[i as int].id); }
                        if k > i { assert(old_reg.sessions@[i as int].id < old_reg.sessions@[k].id); }
                    }
                }
                Ok(())
            },
            None => Err(NoSuchSession),
        }
    }

    /// In a well-formed registry, `b` is in the aura of `a` exactly when both
    /// are registered and the session of `b` is a member of the aura of the
    /// session of `a`.
    pub proof fn lemma_in_aura_member(&self, a: i32, b: i32)
        requires
            self.wf(),
        ensures
            self.in_aura(a, b) == (self.has(a) && self.has(b) && self.member(
                self.index_of(a),
                self.index_of(b),
            )),
    {
        if self.has(a) {
            let ia = self.index_of(a);
            assert(self.sessions@[ia].id == a);
            if self.in_aura(a, b) {
                let i = choose|i: int|
                    0 <= i < self.sessions@.len() && #[trigger] self.sessions@[i].id == a
                        && self.sessions@[i].aura@.contains(b);
                self.lemma_unique_index(i, ia);
                let k = choose|k: int| 0 <= k < self.sessions@[i].aura@.len() && self.sessions@[i].aura@[k] == b;
                assert(self.has(self.sessions@[i].aura@[k]));
                let ib = self.index_of(b);
                assert(self.sessions@[ib].id == b);
            }
            if self.has(b) && self.member(ia, self.index_of(b)) {
                let ib = self.index_of(b);
                assert(self.sessions@[ib].id == b);
                assert(self.sessions@[ia].aura@.contains(b));
            }
        }
    }

    /// Two indices holding the same id are the same index.
    pub proof fn lemma_unique_index(&self, i: int, j: int)
        requires
            self.wf(),
            0 <= i < self.sessions@.len(),
            0 <= j < self.sessions@.len(),
            self.sessions@[i].id == self.sessions@[j].id,
        ensures
            i == j,
    {
        if i < j {
            assert(self.sessions@[i].id < self.sessions@[j].id);
        }
        if j < i {
            assert(self.sessions@[j].id < self.sessions@[i].id);
        }
    }

    /// Puts the sessions at indices `i` and `j` into each other's aura.
    pub fn link(&mut self, i: usize, j: usize)
        requires
            old(self).wf(),
            i < old(self).sessions@.len(),
            j < old(self).sessions@.len(),
            i != j,
            !old(self).member(i as int, j as int),
            !old(self).sessions@[i as int].departed,
            !old(self).sessions@[j as int].departed,
        ensures
            final(self).wf(),
            final(self).sessions@.len() == old(self).sessions@.len(),
            final(self).max_players == old(self).max_players,
            final(self).next_id == old(self).next_id,
            forall|k: int|
                0 <= k < old(self).sessions@.len() ==> same_but_aura(
                    #[trigger] final(self).sessions@[k],
                    old(self).sessions@[k],
                ),
            forall|a: int, b: int|
                0 <= a < old(self).sessions@.len() && 0 <= b < old(self).sessions@.len() ==> (
                #[trigger] final(self).member(a, b) == (old(self).member(a, b) || (a == i && b
                    == j) || (a == j && b == i))),
    {
        let ghost old_reg = *self;
        let id_i = self.sessions[i].id;
        let id_j = self.sessions[j].id;
        self.sessions[i].aura.push(id_j);
        self.sessions[j].aura.push(id_i);
        proof {
            let n = old_reg.sessions@.len() as int;
            assert(!old_reg.member(j as int, i as int));
            assert forall|k: int| 0 <= k < n implies #[trigger] self.sessions@[k].aura@ == (if k == i {
                old_reg.sessions@[k].aura@.push(id_j)
            } else if k == j {
                old_reg.sessions@[k].aura@.push(id_i)
            } else {
                old_reg.sessions@[k].aura@
            }) && same_but_aura(self.sessions@[k], old_reg.sessions@[k]) by {}
            assert forall|a: int, b: int| 0 <= a < n && 0 <= b < n implies #[trigger] self.member(a, b)
                == (old_reg.member(a, b) || (a == i && b == j) || (a == j && b == i)) by {
                let x = old_reg.sessions@[b].id;
                if a == i || a == j {
                    let other = if a == i { id_j } else { id_i };
                    let ob: int = if a == i { j as int } else { i as int };
                    assert(self.sessions@[a].aura@.contains(x) == (old_reg.sessions@[a].aura@.contains(x) || x == other)) by {
                        if self.sessions@[a].aura@.contains(x) && !old_reg.sessions@[a].aura@.contains(x) {
                            let k = choose|k: int| 0 <= k < self.sessions@[a].aura@.len() && self.sessions@[a].aura@[k] == x;
                            assert(k == old_reg.sessions@[a].aura@.len());
                        }
                        if old_reg.sessions@[a].aura@.contains(x) {
                            let k = choose|k: int| 0 <= k < old_reg.sessions@[a].aura@.len() && old_reg.sessions@[a].aura@[k] == x;
                            assert(self.sessions@[a].aura@[k] == x);
                        }
                        if x == other {
                            assert(self.sessions@[a].aura@[old_reg.sessions@[a].aura@.len() as int] == x);
                        }
                    }
                    if x == other {
                        old_reg.lemma_unique_index(b, ob);
                    }
                }
            }
            assert forall|i2: int, j2: int|
                0 <= i2 < n && 0 <= j2 < n implies (#[trigger] self.member(i2, j2)
                <==> #[trigger] self.member(j2, i2)) by {
                assert(old_reg.member(i2, j2) == old_reg.member(j2, i2));
            }
            assert forall|a: int| 0 <= a < n implies (#[trigger] self.sessions@[a]).aura@.no_duplicates() by {
                assert(old_reg.sessions@[a].aura@.no_duplicates());
                if a == i || a == j {
                    let other = if a == i { id_j } else { id_i };
                    let ob: int = if a == i { j as int } else { i as int };
                    assert(!old_reg.member(a, ob));
                    assert(!old_reg.sessions@[a].aura@.contains(other));
                    let s = self.sessions@[a].aura@;
                    let o = old_reg.sessions@[a].aura@;
                    assert forall|p: int, q: int| 0 <= p < s.len() && 0 <= q < s.len() && p != q implies s[p] != s[q] by {
                        if p == o.len() {
                            assert(s[q] == o[q]);
                        } else if q == o.len() {
                            assert(s[p] == o[p]);
                        } else {
                            assert(s[p] == o[p] && s[q] == o[q]);
                        }
                    }
                }
            }
            assert forall|xid: i32| old_reg.has(xid) implies self.has(xid) by {
                let w = choose|w: int| 0 <= w < n && #[trigger] old_reg.sessions@[w].id == xid;
                assert(self.sessions@[w].id == xid);
            }
            assert forall|a: int, k: int|
                0 <= a < n && 0 <= k < self.sessions@[a].aura@.len() implies {
                &&& #[trigger] self.sessions@[a].aura@[k] != self.sessions@[a].id
                &&& self.has(self.sessions@[a].aura@[k])
            } by {
                let o = old_reg.sessions@[a].aura@;
                if k < o.len() {
                    assert(self.sessions@[a].aura@[k] == o[k]);
                    assert(old_reg.has(o[k]));
                } else if a == i {
                    assert(self.sessions@[j as int].id == id_j);
                } else {
                    assert(self.sessions@[i as int].id == id_i);
                }
            }
            assert forall|a: int| 0 <= a < n implies 1 <= #[trigger] self.sessions@[a].id < self.next_id by {
                assert(old_reg.sessions@[a].id == self.sessions@[a].id);
            }
            assert forall|a: int, b: int| 0 <= a < b < n implies self.sessions@[a].id < self.sessions@[b].id by {
                assert(old_reg.sessions@[a].id == self.sessions@[a].id);
                assert(old_reg.sessions@[b].id == self.sessions@[b].id);
            }
        }
    }

    /// Takes the sessions at indices `i` and `j` out of each other's aura.
    pub fn unlink(&mut self, i: usize, j: usize)
        requires
            old(self).wf(),
            i < old(self).sessions@.len(),
            j < old(self).sessions@.len(),
            old(self).member(i as int, j as int),
        ensures
            final(self).wf(),
            final(self).sessions@.len() == old(self).sessions@.len(),
            final(self).max_players == old(self).max_players,
            final(self).next_id == old(self).next_id,
            forall|k: int|
                0 <= k < old(self).sessions@.len() ==> same_but_aura(
                    #[trigger] final(self).sessions@[k],
                    old(self).sessions@[k],
                ),
            forall|a: int, b: int|
                0 <= a < old(self).sessions@.len() && 0 <= b < old(self).sessions@.len() ==> (
                #[trigger] final(self).member(a, b) == (old(self).member(a, b) && !(a == i && b
                    == j) && !(a == j && b == i))),
            i != j,
            final(self).sessions@[i as int].aura@ == without(
                old(self).sessions@[i as int].aura@,
                old(self).sessions@[j as int].id,
            ),
            final(self).sessions@[j as int].aura@ == without(
                old(self).sessions@[j as int].aura@,
                old(self).sessions@[i as int].id,
            ),
            forall|k: int|
                0 <= k < old(self).sessions@.len() && k != i && k != j
                    ==> #[trigger] final(self).sessions@[k] == old(self).sessions@[k],
    {
        let ghost old_reg = *self;
        let id_i = self.sessions[i].id;
        let id_j = self.sessions[j].id;
        proof {
            assert(old_reg.member(j as int, i as int));
            if i == j {
                let k = choose|k: int| 0 <= k < old_reg.sessions@[i as int].aura@.len() && old_reg.sessions@[i as int].aura@[k] == id_j;
                assert(old_reg.sessions@[i as int].aura@[k] != old_reg.sessions@[i as int].id);
            }
        }
        remove_id(&mut self.sessions[i].aura, id_j);
        remove_id(&mut self.sessions[j].aura, id_i);
        proof {
            let n = old_reg.sessions@.len() as int;
            assert forall|k: int| 0 <= k < n && k != i && k != j implies #[trigger] self.sessions@[k] == old_reg.sessions@[k] by {}
            assert forall|k: int| 0 <= k < n implies same_but_aura(#[trigger] self.sessions@[k], old_reg.sessions@[k]) by {}
            assert forall|a: int, b: int| 0 <= a < n && 0 <= b < n implies #[trigger] self.member(a, b)
                == (old_reg.member(a, b) && !(a == i && b == j) && !(a == j && b == i)) by {
                let x = old_reg.sessions@[b].id;
                if a == i && x == id_j {
                    old_reg.lemma_unique_index(b, j as int);
                }
                if a == j && x == id_i {
                    old_reg.lemma_unique_index(b, i as int);
                }
            }
            assert forall|i2: int, j2: int|
                0 <= i2 < n && 0 <= j2 < n implies (#[trigger] self.member(i2, j2)
                <==> #[trigger] self.member(j2, i2)) by {
                assert(old_reg.member(i2, j2) == old_reg.member(j2, i2));
            }
            assert forall|a: int| 0 <= a < n implies (#[trigger] self.sessions@[a]).aura@.no_duplicates() by {
                assert(old_reg.sessions@[a].aura@.no_duplicates());
            }
            assert forall|xid: i32| old_reg.has(xid) implies self.has(xid) by {
                let w = choose|w: int| 0 <= w < n && #[trigger] old_reg.sessions@[w].id == xid;
                assert(self.sessions@[w].id == xid);
            }
            assert forall|a: int, k: int|
                0 <= a < n && 0 <= k < self.sessions@[a].aura@.len() implies {
                &&& #[trigger] self.sessions@[a].aura@[k] != self.sessions@[a].id
                &&& self.has(self.sessions@[a].aura@[k])
            } by {
                let o = old_reg.sessions@[a].aura@;
                let y = self.sessions@[a].aura@[k];
                assert(o.contains(y));
                let m = choose|m: int| 0 <= m < o.len() && o[m] == y;
                assert(old_reg.has(o[m]));
            }
            assert forall|a: int| 0 <= a < n implies 1 <= #[trigger] self.sessions@[a].id < self.next_id by {
                assert(old_reg.sessions@[a].id == self.sessions@[a].id);
            }
            assert forall|a: int, b: int| 0 <= a < b < n implies self.sessions@[a].id < self.sessions@[b].id by {
                assert(old_reg.sessions@[a].id == self.sessions@[a].id);
                assert(old_reg.sessions@[b].id == self.sessions@[b].id);
            }
        }
    }

    /// Removes the session at index `i`, which no aura relation involves.
    pub fn remove_at(&mut self, i: usize) -> (s: Session)
        requires
            old(self).wf(),
            i < old(self).sessions@.len(),
            old(self).sessions@[i as int].aura@.len() == 0,
            forall|a: int| 0 <= a < old(self).sessions@.len() ==> !old(self).member(a, i as int),
        ensures
            final(self).wf(),
            final(self).sessions@ == old(self).sessions@.remove(i as int),
            s == old(self).sessions@[i as int],
            final(self).max_players == old(self).max_players,
            final(self).next_id == old(self).next_id,
    {
        let ghost old_reg = *self;
        let s = self.sessions.remove(i);
        proof {
            let n = old_reg.sessions@.len() as int;
            let ii = i as int;
            assert forall|k: int| 0 <= k < n - 1 implies #[trigger] self.sessions@[k] == old_reg.sessions@[
                if k < ii { k } else { k + 1 }
            ] by {}
            assert forall|a: int, b: int| 0 <= a < b < n - 1 implies self.sessions@[a].id < self.sessions@[b].id by {
                let oa = if a < ii { a } else { a + 1 };
                let ob = if b < ii { b } else { b + 1 };
                assert(old_reg.sessions@[oa].id < old_reg.sessions@[ob].id);
            }
            assert forall|a: int| 0 <= a < n - 1 implies 1 <= #[trigger] self.sessions@[a].id < self.next_id by {
                let oa = if a < ii { a } else { a + 1 };
                assert(old_reg.sessions@[oa] == self.sessions@[a]);
            }
            assert forall|a: int| 0 <= a < n - 1 implies (#[trigger] self.sessions@[a]).aura@.no_duplicates() by {
                let oa = if a < ii { a } else { a + 1 };
                assert(old_reg.sessions@[oa] == self.sessions@[a]);
            }
            assert forall|a: int, k: int|
                0 <= a < n - 1 && 0 <= k < self.sessions@[a].aura@.len() implies {
                &&& #[trigger] self.sessions@[a].aura@[k] != self.sessions@[a].id
                &&& self.has(self.sessions@[a].aura@[k])
            } by {
                let oa = if a < ii { a } else { a + 1 };
                assert(old_reg.sessions@[oa] == self.sessions@[a]);
                let x = old_reg.sessions@[oa].aura@[k];
                assert(old_reg.has(x));
                let w = choose|w: int| 0 <= w < n && #[trigger] old_reg.sessions@[w].id == x;
                if w == ii {
                    assert(old_reg.sessions@[oa].aura@.contains(x));
                    assert(old_reg.member(oa, ii));
                }
                let nw = if w < ii { w } else { w - 1 };
                assert(self.sessions@[nw].id == x);
            }
            assert forall|a: int, b: int|
                0 <= a < n - 1 && 0 <= b < n - 1 implies (#[trigger] self.member(a, b)
                <==> #[trigger] self.member(b, a)) by {
                let oa = if a < ii { a } else { a + 1 };
                let ob = if b < ii { b } else { b + 1 };
                assert(self.member(a, b) == old_reg.member(oa, ob));
                assert(self.member(b, a) == old_reg.member(ob, oa));
            }
        }
        s
    }

    /// The aura relation is symmetric in every well-formed registry, that is
    /// between any two operations: `b` is in the aura of `a` exactly when `a`
    /// is in the aura of `b`.
    pub proof fn lemma_aura_symmetric(&self, a: i32, b: i32)
        requires
            self.wf(),
        ensures
            self.in_aura(a, b) == self.in_aura(b, a),
    {
        if self.in_aura(a, b) {
            let i = choose|i: int|
                0 <= i < self.sessions@.len() && #[trigger] self.sessions@[i].id == a
                    && self.sessions@[i].aura@.contains(b);
            let k = choose|k: int| 0 <= k < self.sessions@[i].aura@.len() && self.sessions@[i].aura@[k] == b;
            assert(self.has(self.sessions@[i].aura@[k]));
            let j = choose|j: int| 0 <= j < self.sessions@.len() && #[trigger] self.sessions@[j].id == b;
            assert(self.member(i, j));
            assert(self.member(j, i));
        }
        if self.in_aura(b, a) {
            let i = choose|i: int|
                0 <= i < self.sessions@.len() && #[trigger] self.sessions@[i].id == b
                    && self.sessions@[i].aura@.contains(a);
            let k = choose|k: int| 0 <= k < self.sessions@[i].aura@.len() && self.sessions@[i].aura@[k] == a;
            assert(self.has(self.sessions@[i].aura@[k]));
            let j = choose|j: int| 0 <= j < self.sessions@.len() && #[trigger] self.sessions@[j].id == a;
            assert(self.member(i, j));
            assert(self.member(j, i));
        }
    }

    /// Marks the session at index `i`, whose aura is empty, as departed and
    /// disconnected.
    pub fn mark_departed(&mut self, i: usize)
        requires
            old(self).wf(),
            i < old(self).sessions@.len(),
            old(self).sessions@[i as int].aura@.len() == 0,
        ensures
            final(self).wf(),
            final(self).max_players == old(self).max_players,
            final(self).next_id == old(self).next_id,
            final(self).sessions@ == old(self).sessions@.update(
                i as int,
                (Session { connected: false, departed: true, ..old(self).sessions@[i as int] }),
            ),
    {
        let ghost old_reg = *self;
        self.sessions[i].connected = false;
        self.sessions[i].departed = true;
        proof {
            assert(self.sessions@ =~= old_reg.sessions@.update(
                i as int,
                (Session { connected: false, departed: true, ..old_reg.sessions@[i as int] }),
            ));
            SessionRegistry::lemma_wf_same_shape(&old_reg, self);
        }
    }

    /// The master session: the one with the lowest id, if any.
    pub fn master(&self) -> (r: Option<i32>)
        requires
            self.wf(),
        ensures
            self.sessions@.len() == 0 ==> r == None::<i32>,
            self.sessions@.len() > 0 ==> r == Some(self.sessions@[0].id),
            r matches Some(m) ==> forall|i: int|
                0 <= i < self.sessions@.len() ==> m <= #[trigger] self.sessions@[i].id,
    {
        if self.sessions.len() == 0 {
            None
        } else {
            Some(self.sessions[0].id)
        }
    }
}

} // verus!
