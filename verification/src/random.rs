//! The random generator of a virtual machine.
//!
//! Everything random that scripts ask for comes from one generator, so that the same configuration
//! and the same events give the same results. The generator is the ChaCha stream cipher with eight
//! rounds; its state is a key and a position in the key's stream of 32-bit words.
use rand::{Rng, SeedableRng};
use rand_chacha::ChaCha8Rng;
use vstd::prelude::*;

verus! {

/// The key that `SeedableRng::seed_from_u64` makes of a seed for `ChaCha8Rng`.
pub uninterp spec fn chacha_key(seed: u64) -> Seq<u8>;

/// What `Rng::random_range` draws from `low..high` with `ChaCha8Rng` under `key`, from word `pos`
/// of the stream on, and the position after it.
pub uninterp spec fn chacha_draw(key: Seq<u8>, pos: u128, low: i64, high: i64) -> (i64, u128);

/// Expands a seed to a key: the seed that `ChaCha8Rng::get_seed` gives of the generator that
/// `seed_from_u64` makes, which is a fixed function of the number.
#[verifier::external_body]
fn expand_seed(seed: u64) -> (key: [u8; 32])
    ensures
        key@ == chacha_key(seed),
{
    ChaCha8Rng::seed_from_u64(seed).get_seed()
}

/// Takes a key from the entropy of the operating system, by `SeedableRng::try_from_os_rng`. It may
/// be any key, and there is none where the system has no entropy to give.
#[verifier::external_body]
fn system_key() -> (key: Option<[u8; 32]>) {
    match ChaCha8Rng::try_from_os_rng() {
        Ok(rng) => Some(rng.get_seed()),
        Err(_) => None,
    }
}

/// Draws from `low..high` by `Rng::random_range`, with the generator that `ChaCha8Rng::from_seed`
/// makes of `key` and `set_word_pos` moves to `pos`, and gives the position that `get_word_pos`
/// reports afterwards. Key and position are all that the outputs of the generator depend on. The
/// range must not be empty: `random_range` panics on an empty one.
#[verifier::external_body]
fn draw(key: &[u8; 32], pos: u128, low: i64, high: i64) -> (drawn: (i64, u128))
    requires
        low < high,
    ensures
        drawn == chacha_draw(key@, pos, low, high),
        low <= drawn.0 < high,
{
    let mut rng = ChaCha8Rng::from_seed(*key);
    rng.set_word_pos(pos);
    let value = rng.random_range(low..high);
    (value, rng.get_word_pos())
}

/// The random generator of a virtual machine.
#[derive(Debug, Clone)]
pub struct VmRng {
    key: [u8; 32],
    pos: u128,
}

/// The state of a [`VmRng`].
#[verifier::ext_equal]
pub struct RngState {
    pub key: Seq<u8>,
    pub pos: u128,
}

impl RngState {
    /// The state that a seed gives.
    pub open spec fn seeded(seed: u64) -> RngState {
        RngState { key: chacha_key(seed), pos: 0 }
    }

    /// What a draw from `low..high` gives, and the state after it. An empty range gives `low` and
    /// leaves the state alone.
    pub open spec fn draw(self, low: i64, high: i64) -> (i64, RngState) {
        if low >= high {
            (low, self)
        } else {
            let (value, pos) = chacha_draw(self.key, self.pos, low, high);
            (value, RngState { pos, ..self })
        }
    }

    /// The state after a list of draws.
    pub open spec fn after(self, ranges: Seq<(i64, i64)>) -> RngState
        decreases ranges.len(),
    {
        if ranges.len() == 0 {
            self
        } else {
            self.after(ranges.drop_last()).draw(ranges.last().0, ranges.last().1).1
        }
    }

    /// What a list of draws gives.
    pub open spec fn drawn(self, ranges: Seq<(i64, i64)>) -> Seq<i64>
        decreases ranges.len(),
    {
        if ranges.len() == 0 {
            Seq::empty()
        } else {
            self.drawn(ranges.drop_last()).push(
                self.after(ranges.drop_last()).draw(ranges.last().0, ranges.last().1).0,
            )
        }
    }
}

impl View for VmRng {
    type V = RngState;

    closed spec fn view(&self) -> RngState {
        RngState { key: self.key@, pos: self.pos }
    }
}

impl VmRng {
    /// A generator whose draws are fixed by `seed`.
    #[must_use]
    pub fn from_seed(seed: u64) -> (rng: Self)
        ensures
            rng@ == RngState::seeded(seed),
    {
        VmRng { key: expand_seed(seed), pos: 0 }
    }

    /// A generator with this key, at the start of its stream.
    #[must_use]
    pub fn from_key(key: [u8; 32]) -> (rng: Self)
        ensures
            rng@ == (RngState { key: key@, pos: 0 }),
    {
        VmRng { key, pos: 0 }
    }

    /// A generator with a key from the operating system, at the start of its stream; nothing where
    /// the system gives none. Which key it gets is not determined.
    #[must_use]
    pub fn from_entropy() -> (rng: Option<Self>)
        ensures
            rng is Some ==> rng->Some_0@.pos == 0 && rng->Some_0@.key.len() == 32,
    {
        match system_key() {
            Some(key) => Some(VmRng::from_key(key)),
            None => None,
        }
    }

    /// A number from `low..high`, or `low` if that range is empty.
    pub fn next_i64_range(&mut self, low: i64, high: i64) -> (value: i64)
        ensures
            (value, final(self)@) == old(self)@.draw(low, high),
            low < high ==> low <= value < high,
            low >= high ==> value == low,
    {
        if low >= high {
            return low;
        }
        let (value, pos) = draw(&self.key, self.pos, low, high);
        self.pos = pos;
        value
    }

    /// The key.
    pub fn key(&self) -> (key: [u8; 32])
        ensures
            key@ == self@.key,
    {
        self.key
    }

    /// The position in the stream.
    pub fn position(&self) -> (pos: u128)
        ensures
            pos == self@.pos,
    {
        self.pos
    }

    /// Moves to another position in the stream.
    pub fn set_position(&mut self, pos: u128)
        ensures
            final(self)@ == (RngState { pos, ..old(self)@ }),
    {
        self.pos = pos;
    }
}

/// Draws do not depend on how they are cut into parts: a list of draws gives what its first part
/// gives, followed by what the second part gives from the state after the first.
pub proof fn draws_can_be_resumed(
    s: RngState,
    first: Seq<(i64, i64)>,
    second: Seq<(i64, i64)>,
)
    ensures
        s.after(first + second) == s.after(first).after(second),
        s.drawn(first + second) == s.drawn(first) + s.after(first).drawn(second),
    decreases second.len(),
{
    if second.len() == 0 {
        assert(first + second =~= first);
        assert(s.drawn(first) + s.after(first).drawn(second) =~= s.drawn(first));
    } else {
        let whole = first + second;
        assert(whole.drop_last() =~= first + second.drop_last());
        assert(whole.last() == second.last());
        draws_can_be_resumed(s, first, second.drop_last());
        assert(s.drawn(whole) =~= s.drawn(first) + s.after(first).drawn(second));
    }
}

/// Draws are taken in turn from one stream: the first draw of a list is what the state gives, and
/// the rest is drawn from the state after it; the key never changes.
pub proof fn draws_are_taken_in_turn(s: RngState, low: i64, high: i64, rest: Seq<(i64, i64)>)
    ensures
        s.drawn(seq![(low, high)] + rest) == seq![s.draw(low, high).0] + s.draw(
            low,
            high,
        ).1.drawn(rest),
        s.drawn(rest).len() == rest.len(),
        s.draw(low, high).1.key == s.key,
        s.after(rest).key == s.key,
{
    let one = seq![(low, high)];
    draws_can_be_resumed(s, one, rest);
    assert(one.drop_last() =~= Seq::<(i64, i64)>::empty());
    assert(one.last() == (low, high));
    assert(s.after(one.drop_last()) == s);
    assert(s.drawn(one.drop_last()) =~= Seq::<i64>::empty());
    assert(s.drawn(one) =~= seq![s.draw(low, high).0]);
    assert(s.after(one) == s.draw(low, high).1);
    drawing_keeps_the_key(s, rest);
}

proof fn drawing_keeps_the_key(s: RngState, ranges: Seq<(i64, i64)>)
    ensures
        s.after(ranges).key == s.key,
        s.drawn(ranges).len() == ranges.len(),
    decreases ranges.len(),
{
    if ranges.len() > 0 {
        drawing_keeps_the_key(s, ranges.drop_last());
    }
}

/// A draw from a range that is not empty takes the next number of the stream of the key, and moves
/// on by what that took; an empty range takes nothing. A seed starts at the beginning of its own
/// stream.
pub proof fn draws_follow_the_stream(s: RngState, low: i64, high: i64, seed: u64)
    ensures
        low < high ==> s.draw(low, high).0 == chacha_draw(s.key, s.pos, low, high).0 && s.draw(
            low,
            high,
        ).1.pos == chacha_draw(s.key, s.pos, low, high).1,
        low >= high ==> s.draw(low, high) == (low, s),
        RngState::seeded(seed).key == chacha_key(seed),
        RngState::seeded(seed).pos == 0,
{
}

} // verus!
