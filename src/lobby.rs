use crate::patterns::{find_first_match, first_match, patterns_view, PatternError};
use std::collections::BTreeMap;
use vstd::prelude::*;

verus! {

/// The buttons under a lobby message.
#[derive(Clone, Copy, Debug, PartialEq, Eq, Structural)]
pub enum AskButton {
    Join,
    Leave,
    Decline,
}

/// How to answer a button press.
#[derive(Clone, Copy, Debug, PartialEq, Eq, Structural)]
pub enum ButtonResponse {
    /// Acknowledge silently.
    Acknowledge,
    /// The press changed nothing: offer the (joke) button that leaves the server.
    OfferLeaveServer,
}

/// The player bounds used for lobbies whose title matches `pattern`.
#[derive(Clone, Debug)]
pub struct LobbyDefaults {
    pub pattern: String,
    pub min_players: Option<u32>,
    pub max_players: Option<u32>,
}

/// A game lobby: who plays, who declined, the player bounds and the start time.
#[derive(Clone, Debug)]
pub struct Lobby {
    pub players: Vec<u64>,
    pub declined_players: Vec<u64>,
    pub min_players: Option<u32>,
    pub max_players: Option<u32>,
    pub start_time: i64,
    pub pinged: bool,
}

/// A span of seconds as a wait: negative spans do not wait.
pub open spec fn clamp_seconds(d: int) -> int {
    if d < 0 {
        0
    } else if d > u64::MAX {
        u64::MAX as int
    } else {
        d
    }
}

fn to_seconds(d: i128) -> (r: u64)
    ensures
        r == clamp_seconds(d as int),
{
    if d < 0 {
        0
    } else if d > u64::MAX as i128 {
        u64::MAX
    } else {
        d as u64
    }
}

/// `s` without any occurrence of `x`.
pub open spec fn without(s: Seq<u64>, x: u64) -> Seq<u64>
    decreases s.len(),
{
    if s.len() == 0 {
        s
    } else if s.last() == x {
        without(s.drop_last(), x)
    } else {
        without(s.drop_last(), x).push(s.last())
    }
}

/// The lobby has reached its maximum.
pub open spec fn is_full(players: Seq<u64>, max_players: Option<u32>) -> bool {
    match max_players {
        Some(m) => players.len() >= m,
        None => false,
    }
}

/// The players stay within the maximum.
pub open spec fn within_max(players: Seq<u64>, max_players: Option<u32>) -> bool {
    match max_players {
        Some(m) => players.len() <= m,
        None => true,
    }
}

pub proof fn lemma_without_len(s: Seq<u64>, x: u64)
    ensures
        without(s, x).len() <= s.len(),
        !without(s, x).contains(x),
        s.contains(x) ==> without(s, x).len() < s.len(),
        !s.contains(x) ==> without(s, x) == s,
    decreases s.len(),
{
    if s.len() > 0 {
        let d = s.drop_last();
        lemma_without_len(d, x);
        if s.last() != x {
            let w = without(d, x);
            assert forall|k: int| 0 <= k < w.push(s.last()).len() implies w.push(s.last())[k] != x by {
                if k < w.len() {
                    assert(!w.contains(x));
                    assert(w[k] != x);
                }
            }
            if s.contains(x) {
                let k = choose|k: int| 0 <= k < s.len() && s[k] == x;
                assert(d[k] == x);
            }
            if !s.contains(x) {
                assert(!d.contains(x)) by {
                    if d.contains(x) {
                        let k = choose|k: int| 0 <= k < d.len() && d[k] == x;
                        assert(s[k] == x);
                    }
                }
                assert(s =~= d.push(s.last()));
            }
        } else {
            assert(s.contains(x)) by {
                assert(s[s.len() - 1] == x);
            }
        }
    }
}

/// Removes every occurrence of `x`.
fn remove_all(v: &mut Vec<u64>, x: u64)
    ensures
        final(v)@ == without(old(v)@, x),
{
    let ghost s = v@;
    let mut out: Vec<u64> = Vec::new();
    let mut i: usize = 0;
    while i < v.len()
        invariant
            0 <= i <= s.len(),
            v@ == s,
            out@ == without(s.subrange(0, i as int), x),
        decreases s.len() - i,
    {
        assert(s.subrange(0, i + 1).drop_last() =~= s.subrange(0, i as int));
        if v[i] != x {
            out.push(v[i]);
        }
        i += 1;
    }
    assert(s.subrange(0, s.len() as int) =~= s);
    *v = out;
}

fn contains(v: &Vec<u64>, x: u64) -> (r: bool)
    ensures
        r == v@.contains(x),
{
    let mut i: usize = 0;
    while i < v.len()
        invariant
            0 <= i <= v@.len(),
            forall|k: int| 0 <= k < i ==> v@[k] != x,
        decreases v@.len() - i,
    {
        if v[i] == x {
            return true;
        }
        i += 1;
    }
    false
}

/// Two lobbies hold the same values.
pub open spec fn same_lobby(a: Lobby, b: Lobby) -> bool {
    &&& a.players@ == b.players@
    &&& a.declined_players@ == b.declined_players@
    &&& a.min_players == b.min_players
    &&& a.max_players == b.max_players
    &&& a.start_time == b.start_time
    &&& a.pinged == b.pinged
}

/// One step of the lobby update worker, after it tried to refresh the lobby of
/// `message`. A successful refresh (`Some`) is remembered as the last good state. A
/// failed one (`None`) puts the last good state, if any, back into `lobbies`.
pub fn remember_or_restore(
    cache: &mut BTreeMap<u64, Lobby>,
    lobbies: &mut BTreeMap<u64, Lobby>,
    message: u64,
    refreshed: Option<&Lobby>,
)
    ensures
        match refreshed {
            Some(l) => {
                &&& final(lobbies)@ == old(lobbies)@
                &&& final(cache)@.dom() == old(cache)@.dom().insert(message)
                &&& same_lobby(final(cache)@[message], *l)
                &&& forall|k: u64| k != message && #[trigger] old(cache)@.contains_key(k) ==> final(cache)@[k]
                    == old(cache)@[k]
            },
            None => {
                &&& final(cache)@ == old(cache)@
                &&& if old(cache)@.contains_key(message) {
                    &&& final(lobbies)@.dom() == old(lobbies)@.dom().insert(message)
                    &&& same_lobby(final(lobbies)@[message], old(cache)@[message])
                    &&& forall|k: u64| k != message && #[trigger] old(lobbies)@.contains_key(k)
                        ==> final(lobbies)@[k] == old(lobbies)@[k]
                } else {
                    final(lobbies)@ == old(lobbies)@
                }
            },
        },
{
    match refreshed {
        Some(l) => {
            cache.insert(message, l.snapshot());
        },
        None => {
            let restored = match cache.get(&message) {
                Some(good) => Some(good.snapshot()),
                None => None,
            };
            match restored {
                Some(good) => {
                    lobbies.insert(message, good);
                },
                None => {},
            }
        },
    }
}

impl Lobby {
    /// A copy of the lobby.
    pub fn snapshot(&self) -> (r: Lobby)
        ensures
            same_lobby(r, *self),
    {
        let players = self.players.clone();
        let declined_players = self.declined_players.clone();
        assert(players@ =~= self.players@);
        assert(declined_players@ =~= self.declined_players@);
        Lobby {
            players,
            declined_players,
            min_players: self.min_players,
            max_players: self.max_players,
            start_time: self.start_time,
            pinged: self.pinged,
        }
    }

    /// A new lobby opened by `author`, who is its first player unless the maximum is
    /// zero. Bounds not given fall back to the defaults that matched the title.
    pub fn open(
        author: u64,
        min_players: Option<u32>,
        max_players: Option<u32>,
        default_min: Option<u32>,
        default_max: Option<u32>,
        start_time: i64,
    ) -> (r: Lobby)
        ensures
            r.players@ == (if r.max_players == Some(0u32) {
                Seq::<u64>::empty()
            } else {
                seq![author]
            }),
            within_max(r.players@, r.max_players),
            r.declined_players@ == Seq::<u64>::empty(),
            r.min_players == (if min_players is Some { min_players } else { default_min }),
            r.max_players == (if max_players is Some { max_players } else { default_max }),
            r.start_time == start_time,
            !r.pinged,
    {
        let max_players = match max_players {
            Some(m) => Some(m),
            None => default_max,
        };
        let mut players = Vec::new();
        if max_players != Some(0u32) {
            players.push(author);
        }
        Lobby {
            players,
            declined_players: Vec::new(),
            min_players: match min_players {
                Some(m) => Some(m),
                None => default_min,
            },
            max_players,
            start_time,
            pinged: false,
        }
    }

    /// Opens a lobby for `title`: bounds not given come from the first of `defaults`
    /// whose pattern matches the title.
    pub fn open_with_defaults(
        author: u64,
        title: &str,
        min_players: Option<u32>,
        max_players: Option<u32>,
        defaults: &Vec<LobbyDefaults>,
        start_time: i64,
    ) -> (r: Result<Lobby, PatternError>)
        ensures
            match first_match(defaults@.map_values(|d: LobbyDefaults| d.pattern@), title@) {
                Err(e) => r == Err::<Lobby, PatternError>(e),
                Ok(found) => r matches Ok(l) && {
                    let (dmin, dmax) = match found {
                        Some(i) => (defaults@[i].min_players, defaults@[i].max_players),
                        None => (None, None),
                    };
                    &&& l.min_players == (if min_players is Some { min_players } else { dmin })
                    &&& l.max_players == (if max_players is Some { max_players } else { dmax })
                    &&& l.players@ == (if l.max_players == Some(0u32) {
                        Seq::<u64>::empty()
                    } else {
                        seq![author]
                    })
                    &&& l.declined_players@ == Seq::<u64>::empty()
                    &&& l.start_time == start_time
                    &&& !l.pinged
                },
            },
    {
        let mut patterns: Vec<String> = Vec::new();
        let mut i: usize = 0;
        while i < defaults.len()
            invariant
                0 <= i <= defaults@.len(),
                patterns@.len() == i,
                forall|k: int| 0 <= k < i ==> (#[trigger] patterns@[k])@ == defaults@[k].pattern@,
            decreases defaults@.len() - i,
        {
            patterns.push(defaults[i].pattern.clone());
            i += 1;
        }
        assert(patterns_view(patterns@) =~= defaults@.map_values(|d: LobbyDefaults| d.pattern@));
        match find_first_match(&patterns, title) {
            Err(e) => Err(e),
            Ok(Some(k)) => Ok(
                Lobby::open(
                    author,
                    min_players,
                    max_players,
                    defaults[k].min_players,
                    defaults[k].max_players,
                    start_time,
                ),
            ),
            Ok(None) => Ok(Lobby::open(author, min_players, max_players, None, None, start_time)),
        }
    }

    /// The lobby has as many players as it allows.
    pub fn full(&self) -> (r: bool)
        ensures
            r == is_full(self.players@, self.max_players),
    {
        match self.max_players {
            Some(m) => self.players.len() >= m as usize,
            None => false,
        }
    }

    /// Applies a press of `button` by `player`.
    /// Join: the player no longer declines, and joins unless the lobby is full or they
    /// are in already. Leave: the player leaves both lists; if they were in neither,
    /// nothing changes. Decline: the player leaves the players and declines; if they had
    /// declined already, nothing more changes.
    pub fn press(&mut self, button: AskButton, player: u64) -> (r: ButtonResponse)
        ensures
            final(self).min_players == old(self).min_players,
            final(self).max_players == old(self).max_players,
            final(self).start_time == old(self).start_time,
            final(self).pinged == old(self).pinged,
            within_max(old(self).players@, old(self).max_players) ==> within_max(
                final(self).players@,
                final(self).max_players,
            ),
            button == AskButton::Join ==> {
                &&& r == ButtonResponse::Acknowledge
                &&& final(self).declined_players@ == without(old(self).declined_players@, player)
                &&& final(self).players@ == if !is_full(old(self).players@, old(self).max_players)
                    && !old(self).players@.contains(player) {
                    old(self).players@.push(player)
                } else {
                    old(self).players@
                }
            },
            button == AskButton::Leave ==> if !old(self).players@.contains(player)
                && !old(self).declined_players@.contains(player) {
                &&& r == ButtonResponse::OfferLeaveServer
                &&& final(self).players@ == old(self).players@
                &&& final(self).declined_players@ == old(self).declined_players@
            } else {
                &&& r == ButtonResponse::Acknowledge
                &&& final(self).players@ == without(old(self).players@, player)
                &&& final(self).declined_players@ == without(old(self).declined_players@, player)
            },
            button == AskButton::Decline ==> {
                &&& final(self).players@ == without(old(self).players@, player)
                &&& if old(self).declined_players@.contains(player) {
                    &&& r == ButtonResponse::OfferLeaveServer
                    &&& final(self).declined_players@ == old(self).declined_players@
                } else {
                    &&& r == ButtonResponse::Acknowledge
                    &&& final(self).declined_players@ == old(self).declined_players@.push(player)
                }
            },
    {
        proof {
            lemma_without_len(self.players@, player);
            lemma_without_len(self.declined_players@, player);
        }
        match button {
            AskButton::Join => {
                remove_all(&mut self.declined_players, player);
                if !self.full() && !contains(&self.players, player) {
                    self.players.push(player);
                }
                ButtonResponse::Acknowledge
            },
            AskButton::Leave => {
                if !contains(&self.players, player) && !contains(&self.declined_players, player) {
                    ButtonResponse::OfferLeaveServer
                } else {
                    remove_all(&mut self.players, player);
                    remove_all(&mut self.declined_players, player);
                    ButtonResponse::Acknowledge
                }
            },
            AskButton::Decline => {
                remove_all(&mut self.players, player);
                if contains(&self.declined_players, player) {
                    ButtonResponse::OfferLeaveServer
                } else {
                    self.declined_players.push(player);
                    ButtonResponse::Acknowledge
                }
            },
        }
    }

    /// Seconds from `now` until the lobby starts, and until it expires `expiration`
    /// seconds after its start; zero when already past, `u64::MAX` at most.
    pub fn update_delays(&self, now: i64, expiration: i64) -> (r: (u64, u64))
        ensures
            r.0 == clamp_seconds(self.start_time - now),
            r.1 == clamp_seconds(expiration + self.start_time - now),
    {
        let start = (self.start_time as i128) - (now as i128);
        let expire = (expiration as i128) + (self.start_time as i128) - (now as i128);
        (to_seconds(start), to_seconds(expire))
    }

    /// The lobby counts as started from three seconds before its start time.
    pub fn has_started(&self, now: i64) -> (r: bool)
        ensures
            r == (self.start_time - now < 3),
    {
        (self.start_time as i128) - (now as i128) < 3
    }

    /// Whether the ready ping is due now: the lobby has started, it has at least the
    /// minimum of players (without a minimum, `u32::MAX` of them), and it was not
    /// pinged before. A due ping is marked as sent, so it happens at most once.
    pub fn take_ready_ping(&mut self, now: i64) -> (r: bool)
        ensures
            r == (!old(self).pinged && old(self).start_time - now < 3 && old(self).players@.len()
                >= match old(self).min_players {
                Some(m) => m,
                None => u32::MAX,
            }),
            final(self).pinged == (old(self).pinged || r),
            final(self).players@ == old(self).players@,
            final(self).declined_players@ == old(self).declined_players@,
            final(self).min_players == old(self).min_players,
            final(self).max_players == old(self).max_players,
            final(self).start_time == old(self).start_time,
    {
        let min: u32 = match self.min_players {
            Some(m) => m,
            None => u32::MAX,
        };
        let enough = self.players.len() >= min as usize;
        if !self.pinged && self.has_started(now) && enough {
            self.pinged = true;
            true
        } else {
            false
        }
    }
}

} // verus!
