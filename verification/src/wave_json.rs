//! Waves of the signals at a network's ports, tick by tick, in the notation
//! of wave diagrams: `l`, `h` and `X` for a level, and `.` for "as before".

use crate::bit::Bit;
use crate::component::Network;
use crate::names::names_view;
use vstd::prelude::*;

verus! {

/// The level that a wave ends on: its last mark other than `.`, and `X`
/// where it has none.
pub open spec fn spec_last_level(wave: Seq<char>) -> char
    decreases wave.len(),
{
    if wave.len() == 0 {
        'X'
    } else if wave.last() != '.' {
        wave.last()
    } else {
        spec_last_level(wave.drop_last())
    }
}

/// The level of each tick of a wave, the marks `.` filled in.
pub open spec fn spec_levels(wave: Seq<char>) -> Seq<char> {
    Seq::new(wave.len(), |i: int| spec_last_level(wave.take(i + 1)))
}

/// The mark for a level.
pub open spec fn spec_mark(value: Bit) -> char {
    match value {
        Bit::L => 'l',
        Bit::H => 'h',
        Bit::X => 'X',
    }
}

/// The wave with one more tick at the level of `value`: `.` if the wave
/// ends on that level.
pub open spec fn spec_pushed(wave: Seq<char>, value: Bit) -> Seq<char> {
    wave.push(
        if spec_mark(value) == spec_last_level(wave) {
            '.'
        } else {
            spec_mark(value)
        },
    )
}

/// The last `n` ticks of a wave: where the first of them is marked `.`, it
/// is given the level that it has.
pub open spec fn spec_kept(wave: Seq<char>, n: nat) -> Seq<char> {
    if wave.len() <= n {
        wave
    } else if n == 0 {
        Seq::empty()
    } else {
        seq![spec_last_level(wave.take(wave.len() - n + 1))] + wave.skip(wave.len() - n + 1)
    }
}

/// How many ticks are dropped when the last `n` are kept.
pub open spec fn spec_dropped(wave: Seq<char>, n: nat) -> nat {
    if wave.len() <= n {
        0
    } else {
        (wave.len() - n) as nat
    }
}

/// One more tick adds its level to the levels of a wave.
pub proof fn lemma_pushed_levels(wave: Seq<char>, value: Bit)
    ensures
        spec_levels(spec_pushed(wave, value)) == spec_levels(wave).push(spec_mark(value)),
{
    let next = spec_pushed(wave, value);
    assert forall|i: int| 0 <= i < next.len() implies spec_levels(next)[i] == spec_levels(
        wave,
    ).push(spec_mark(value))[i] by {
        if i < wave.len() {
            assert(next.take(i + 1) =~= wave.take(i + 1));
        } else {
            assert(next.take(i + 1) =~= next);
            assert(next.drop_last() =~= wave);
        }
    }
    assert(spec_levels(next) =~= spec_levels(wave).push(spec_mark(value)));
}

/// The kept ticks have the levels that they had.
pub proof fn lemma_kept_levels(wave: Seq<char>, n: nat)
    ensures
        spec_levels(spec_kept(wave, n)) == spec_levels(wave).skip(spec_dropped(wave, n) as int),
{
    let kept = spec_kept(wave, n);
    let d = spec_dropped(wave, n) as int;
    if wave.len() <= n {
        assert(spec_levels(wave).skip(0) =~= spec_levels(wave));
    } else if n == 0 {
        assert(spec_levels(kept) =~= spec_levels(wave).skip(d));
    } else {
        assert(kept.len() == n);
        assert forall|i: int| 0 <= i < n implies spec_levels(kept)[i] == spec_levels(wave)[d + i] by {
            let a = kept.take(i + 1);
            let b = wave.take(d + i + 1);
            assert(a[0] == spec_last_level(wave.take(d + 1)));
            assert(a[0] != '.') by {
                lemma_last_level_is_level(wave.take(d + 1));
            }
            assert(b.take(d + 1) =~= wave.take(d + 1));
            assert forall|j: int| 1 <= j < a.len() implies a[j] == b[d + j] by {
                assert(kept[j] == wave.skip(d + 1)[j - 1]);
            }
            lemma_head_level(a, b, d);
        }
        assert(spec_levels(kept) =~= spec_levels(wave).skip(d));
    }
}

/// The level that a wave ends on is `l`, `h` or `X`, if the wave is made
/// of `l`, `h`, `X` and `.`; in any case it is not `.`.
pub proof fn lemma_last_level_is_level(wave: Seq<char>)
    ensures
        spec_last_level(wave) != '.',
    decreases wave.len(),
{
    if wave.len() > 0 && wave.last() == '.' {
        lemma_last_level_is_level(wave.drop_last());
    }
}

/// A wave `a` that is `b` without its first `d` ticks, its first mark being
/// the level of `b` there, ends on the level that `b` ends on.
proof fn lemma_head_level(a: Seq<char>, b: Seq<char>, d: int)
    requires
        0 <= d < b.len(),
        a.len() == b.len() - d,
        a[0] == spec_last_level(b.take(d + 1)),
        a[0] != '.',
        forall|i: int| 1 <= i < a.len() ==> a[i] == b[d + i],
    ensures
        spec_last_level(a) == spec_last_level(b),
    decreases a.len(),
{
    if a.len() == 1 {
        assert(b.take(d + 1) =~= b);
    } else {
        assert(a.last() == b.last());
        if a.last() == '.' {
            let a2 = a.drop_last();
            let b2 = b.drop_last();
            assert(b2.take(d + 1) =~= b.take(d + 1));
            lemma_head_level(a2, b2, d);
        }
    }
}

/// The wave of one signal.
#[derive(Debug)]
pub struct Signal {
    name: String,
    wave: Vec<char>,
}

impl Signal {
    /// The name of the signal.
    pub closed spec fn spec_name(self) -> Seq<char> {
        self.name@
    }

    /// The marks of the wave.
    pub closed spec fn spec_wave(self) -> Seq<char> {
        self.wave@
    }

    pub fn new(name: String) -> (r: Self)
        ensures
            r.spec_name() == name@,
            r.spec_wave() == Seq::<char>::empty(),
    {
        Signal { name, wave: Vec::new() }
    }

    /// The signal called `name` with the marks `wave`.
    pub fn from_parts(name: String, wave: Vec<char>) -> (r: Self)
        ensures
            r.spec_name() == name@,
            r.spec_wave() == wave@,
    {
        Signal { name, wave }
    }

    pub fn name(&self) -> (r: &String)
        ensures
            r@ == self.spec_name(),
    {
        &self.name
    }

    pub fn wave(&self) -> (r: &Vec<char>)
        ensures
            r@ == self.spec_wave(),
    {
        &self.wave
    }

    /// The level that the wave ends on.
    pub fn last_level(&self) -> (r: char)
        ensures
            r == spec_last_level(self.spec_wave()),
    {
        let mut i = self.wave.len();
        assert(self.wave@.take(i as int) =~= self.wave@);
        while i > 0 && self.wave[i - 1] == '.'
            invariant
                i <= self.wave@.len(),
                spec_last_level(self.wave@) == spec_last_level(self.wave@.take(i as int)),
            decreases i,
        {
            assert(self.wave@.take(i as int).drop_last() =~= self.wave@.take(i - 1));
            i -= 1;
        }
        if i == 0 {
            assert(self.wave@.take(0) =~= Seq::<char>::empty());
            'X'
        } else {
            assert(self.wave@.take(i as int).last() == self.wave@[i - 1]);
            self.wave[i - 1]
        }
    }

    /// Adds one tick at the level of `value`.
    pub fn push_value(&mut self, value: Bit)
        ensures
            final(self).spec_wave() == spec_pushed(old(self).spec_wave(), value),
            final(self).spec_name() == old(self).spec_name(),
    {
        let mut c = match value {
            Bit::L => 'l',
            Bit::H => 'h',
            Bit::X => 'X',
        };
        if c == self.last_level() {
            c = '.';
        }
        self.wave.push(c);
    }

    /// Keeps the last `n` ticks and returns how many were dropped.
    pub fn keep_last(&mut self, n: usize) -> (dropped: usize)
        ensures
            final(self).spec_wave() == spec_kept(old(self).spec_wave(), n as nat),
            dropped == spec_dropped(old(self).spec_wave(), n as nat),
            final(self).spec_name() == old(self).spec_name(),
    {
        let len = self.wave.len();
        if len <= n {
            return 0;
        }
        let cut = len - n;
        if n == 0 {
            self.wave = Vec::new();
            return cut;
        }
        let mut i = cut + 1;
        let ghost head = self.wave@.take(cut + 1);
        while i > 0 && self.wave[i - 1] == '.'
            invariant
                i <= cut + 1,
                cut + 1 <= self.wave@.len(),
                head == self.wave@.take(cut + 1),
                spec_last_level(head) == spec_last_level(self.wave@.take(i as int)),
            decreases i,
        {
            assert(self.wave@.take(i as int).drop_last() =~= self.wave@.take(i - 1));
            i -= 1;
        }
        let first = if i == 0 {
            assert(self.wave@.take(0) =~= Seq::<char>::empty());
            'X'
        } else {
            assert(self.wave@.take(i as int).last() == self.wave@[i - 1]);
            self.wave[i - 1]
        };
        let mut kept: Vec<char> = Vec::new();
        kept.push(first);
        let mut k = cut + 1;
        while k < len
            invariant
                cut + 1 <= k <= len,
                len == self.wave@.len(),
                kept@ == seq![first] + self.wave@.subrange(cut + 1, k as int),
            decreases len - k,
        {
            kept.push(self.wave[k]);
            k += 1;
            assert(kept@ =~= seq![first] + self.wave@.subrange(cut + 1, k as int));
        }
        assert(self.wave@.subrange(cut + 1, len as int) =~= self.wave@.skip(cut + 1));
        self.wave = kept;
        cut
    }
}

/// The head or the foot of a wave diagram.
#[derive(Debug, Default)]
pub struct Foot {
    pub text: Option<String>,
    pub tick: Option<u32>,
    pub tock: Option<u32>,
}

impl Foot {
    pub fn new() -> (r: Self)
        ensures
            r.text is None,
            r.tick is None,
            r.tock is None,
    {
        Foot { text: None, tick: None, tock: None }
    }

    pub fn set_tick(&mut self, tick: Option<u32>)
        ensures
            final(self).tick == tick,
            final(self).text == old(self).text,
            final(self).tock == old(self).tock,
    {
        self.tick = tick;
    }
}

/// The waves of the signals at the ports of a network.
#[derive(Debug)]
pub struct WaveJson {
    signal: Vec<Signal>,
    head: Foot,
    foot: Foot,
    max_buffer_len: usize,
}

/// The greatest number of ticks dropped from any of the first `k` waves
/// when each is given its value and cut to `n` ticks.
pub open spec fn spec_max_dropped(waves: Seq<Seq<char>>, values: Seq<Bit>, n: nat, k: nat) -> nat
    decreases k,
{
    if k == 0 {
        0
    } else {
        let before = spec_max_dropped(waves, values, n, (k - 1) as nat);
        let here = spec_dropped(spec_pushed(waves[k - 1], values[k - 1]), n);
        if here > before {
            here
        } else {
            before
        }
    }
}

impl WaveJson {
    /// The names of the signals, in order.
    pub closed spec fn spec_names(self) -> Seq<Seq<char>> {
        Seq::new(self.signal@.len(), |i: int| self.signal@[i].spec_name())
    }

    /// The waves of the signals, in order.
    pub closed spec fn spec_waves(self) -> Seq<Seq<char>> {
        Seq::new(self.signal@.len(), |i: int| self.signal@[i].spec_wave())
    }

    /// The number of the first tick that the waves show.
    pub closed spec fn spec_tick(self) -> Option<u32> {
        self.head.tick
    }

    /// How many ticks are kept at most.
    pub closed spec fn spec_buffer_len(self) -> usize {
        self.max_buffer_len
    }

    /// The foot of the diagram.
    pub closed spec fn spec_foot(self) -> Foot {
        self.foot
    }

    /// Empty waves for the ports of `c`, inputs first, starting at tick 0
    /// and kept without limit.
    pub fn from_structural(c: &Network) -> (r: Self)
        ensures
            r.spec_names() == c@.info.inputs + c@.info.outputs,
            r.spec_waves() == Seq::new(r.spec_names().len(), |i: int| Seq::<char>::empty()),
            r.spec_tick() == Some(0u32),
            r.spec_buffer_len() == usize::MAX,
            r.spec_foot().text is None,
            r.spec_foot().tick is None,
            r.spec_foot().tock is None,
    {
        let port_names = c.port_names();
        let mut signal: Vec<Signal> = Vec::new();
        let mut i: usize = 0;
        while i < port_names.input.len()
            invariant
                i <= port_names.input@.len(),
                signal@.len() == i,
                forall|j: int|
                    0 <= j < i ==> (#[trigger] signal@[j]).spec_name() == port_names.input@[j]@
                        && signal@[j].spec_wave() == Seq::<char>::empty(),
            decreases port_names.input@.len() - i,
        {
            signal.push(Signal::new(port_names.input[i].clone()));
            i += 1;
        }
        let n_in = port_names.input.len();
        let mut i: usize = 0;
        while i < port_names.output.len()
            invariant
                i <= port_names.output@.len(),
                n_in == port_names.input@.len(),
                signal@.len() == n_in + i,
                forall|j: int|
                    0 <= j < n_in ==> (#[trigger] signal@[j]).spec_name() == port_names.input@[j]@
                        && signal@[j].spec_wave() == Seq::<char>::empty(),
                forall|j: int|
                    0 <= j < i ==> (#[trigger] signal@[n_in + j]).spec_name()
                        == port_names.output@[j]@ && signal@[n_in + j].spec_wave()
                        == Seq::<char>::empty(),
            decreases port_names.output@.len() - i,
        {
            signal.push(Signal::new(port_names.output[i].clone()));
            i += 1;
        }
        let mut head = Foot::new();
        head.set_tick(Some(0));
        let r = WaveJson { signal, head, foot: Foot::new(), max_buffer_len: usize::MAX };
        proof {
            let want = c@.info.inputs + c@.info.outputs;
            assert(r.spec_names().len() == want.len());
            assert forall|j: int| 0 <= j < want.len() implies r.spec_names()[j] == want[j] by {
                if j < n_in {
                    assert(signal@[j].spec_name() == port_names.input@[j]@);
                    assert(want[j] == names_view(port_names.input@)[j]);
                } else {
                    let k = j - n_in;
                    assert(signal@[n_in + k].spec_name() == port_names.output@[k]@);
                    assert(want[j] == names_view(port_names.output@)[k]);
                }
            }
            assert(r.spec_names() =~= want);
            assert forall|j: int| 0 <= j < want.len() implies r.spec_waves()[j] == Seq::<
                char,
            >::empty() by {
                if j < n_in {
                    assert(signal@[j].spec_wave() == Seq::<char>::empty());
                } else {
                    let k = j - n_in;
                    assert(signal@[n_in + k].spec_wave() == Seq::<char>::empty());
                }
            }
            assert(r.spec_waves() =~= Seq::new(r.spec_names().len(), |i: int| Seq::<char>::empty()));
        }
        r
    }

    /// The waves made of the given parts.
    pub fn from_parts(signal: Vec<Signal>, head: Foot, foot: Foot, max_buffer_len: usize) -> (r:
        Self)
        ensures
            r.spec_names() == Seq::new(signal@.len(), |i: int| signal@[i].spec_name()),
            r.spec_waves() == Seq::new(signal@.len(), |i: int| signal@[i].spec_wave()),
            r.spec_tick() == head.tick,
            r.spec_buffer_len() == max_buffer_len,
            r.spec_foot() == foot,
    {
        WaveJson { signal, head, foot, max_buffer_len }
    }

    /// The head of the diagram.
    pub fn head(&self) -> (r: &Foot)
        ensures
            r.tick == self.spec_tick(),
    {
        &self.head
    }

    /// The foot of the diagram.
    pub fn foot(&self) -> (r: &Foot)
        ensures
            *r == self.spec_foot(),
    {
        &self.foot
    }

    /// How many ticks are kept at most.
    pub fn max_buffer_len(&self) -> (r: usize)
        ensures
            r == self.spec_buffer_len(),
    {
        self.max_buffer_len
    }

    /// Sets how many ticks are kept at most.
    pub fn set_buffer_len(&mut self, len: usize)
        ensures
            final(self).spec_buffer_len() == len,
            final(self).spec_foot() == old(self).spec_foot(),
            final(self).spec_names() == old(self).spec_names(),
            final(self).spec_waves() == old(self).spec_waves(),
            final(self).spec_tick() == old(self).spec_tick(),
    {
        self.max_buffer_len = len;
    }

    /// The signals with their waves.
    pub fn signals(&self) -> (r: &Vec<Signal>)
        ensures
            r@.len() == self.spec_names().len(),
            forall|i: int|
                0 <= i < r@.len() ==> (#[trigger] r@[i]).spec_name() == self.spec_names()[i]
                    && r@[i].spec_wave() == self.spec_waves()[i],
    {
        &self.signal
    }

    /// The number of the first tick that the waves show.
    pub fn tick(&self) -> (r: Option<u32>)
        ensures
            r == self.spec_tick(),
    {
        self.head.tick
    }

    /// Adds one tick to each wave: the values at the inputs of `c`, then
    /// those at its outputs. Each wave is then cut to the number of ticks
    /// that are kept, and the number of the first tick goes up by what was
    /// dropped, wrapping round at the largest number.
    pub fn update(&mut self, c: &Network)
        requires
            c@.slots.len() >= 1,
            old(self).spec_names().len() >= c@.input().len() + c@.output().len(),
        ensures
            final(self).spec_names() == old(self).spec_names(),
            final(self).spec_buffer_len() == old(self).spec_buffer_len(),
            final(self).spec_foot() == old(self).spec_foot(),
            final(self).spec_waves().len() == old(self).spec_waves().len(),
            forall|i: int|
                0 <= i < (c@.input() + c@.output()).len() ==> #[trigger] final(self).spec_waves()[i]
                    == spec_kept(
                    spec_pushed(old(self).spec_waves()[i], (c@.input() + c@.output())[i]),
                    old(self).spec_buffer_len() as nat,
                ),
            forall|i: int|
                (c@.input() + c@.output()).len() <= i < old(self).spec_waves().len()
                    ==> #[trigger] final(self).spec_waves()[i] == old(self).spec_waves()[i],
            final(self).spec_tick() == (match old(self).spec_tick() {
                Some(t) => Some(
                    ((t + spec_max_dropped(
                        old(self).spec_waves(),
                        c@.input() + c@.output(),
                        old(self).spec_buffer_len() as nat,
                        (c@.input() + c@.output()).len(),
                    )) % 0x1_0000_0000int) as u32,
                ),
                None => None,
            }),
    {
        let mut values = c.input();
        let mut outputs = c.output();
        values.append(&mut outputs);
        let ghost bits = c@.input() + c@.output();
        assert(values@ == bits);
        let ghost waves = self.spec_waves();
        let limit = self.max_buffer_len;
        let mut n: usize = 0;
        let mut i: usize = 0;
        while i < values.len()
            invariant
                i <= values@.len(),
                values@ == bits,
                values@.len() <= self.signal@.len(),
                self.signal@.len() == waves.len(),
                waves == old(self).spec_waves(),
                limit == old(self).spec_buffer_len(),
                self.max_buffer_len == limit,
                self.head == old(self).head,
                self.foot == old(self).foot,
                self.spec_names() == old(self).spec_names(),
                n == spec_max_dropped(waves, bits, limit as nat, i as nat),
                forall|j: int|
                    0 <= j < i ==> (#[trigger] self.signal@[j]).spec_wave() == spec_kept(
                        spec_pushed(waves[j], bits[j]),
                        limit as nat,
                    ),
                forall|j: int|
                    i <= j < waves.len() ==> (#[trigger] self.signal@[j]).spec_wave() == waves[j],
            decreases values@.len() - i,
        {
            let ghost names = self.spec_names();
            let ghost before = self.signal@;
            self.signal[i].push_value(values[i]);
            let dropped = self.signal[i].keep_last(limit);
            if dropped > n {
                n = dropped;
            }
            proof {
                assert forall|j: int| 0 <= j < names.len() implies self.spec_names()[j]
                    == names[j] by {
                    if j != i {
                        assert(self.signal@[j] == before[j]);
                    }
                }
                assert(self.spec_names() =~= names);
            }
            i += 1;
        }
        let tick = match self.head.tick {
            Some(t) => Some(t.wrapping_add(wrap_u32(n))),
            None => None,
        };
        self.head.set_tick(tick);
        proof {
            assert(final(self).spec_waves().len() == waves.len());
        }
    }
}

/// `n` modulo two to the power 32.
fn wrap_u32(n: usize) -> (r: u32)
    ensures
        r == (n as int) % 0x1_0000_0000int,
{
    let m = n as u64;
    assert((m & 0xffff_ffff) == m % 0x1_0000_0000 && (m & 0xffff_ffff) < 0x1_0000_0000) by (bit_vector);
    (m & 0xffff_ffff) as u32
}

} // verus!
