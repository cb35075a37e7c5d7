//! The dial of a safe: turning it, and counting how often it points at zero.

use vstd::prelude::*;
use vstd::string::StringSliceAdditionalSpecFns;
use vstd::slice::slice_subrange;
use crate::text::{contents, is_unsigned, lines, lines_of, parse_unsigned, unsigned_value, Malformed};

verus! {

/// The number of positions on the dial.
pub const DIAL_SIZE: u32 = 100;

/// Where a new dial points.
pub const DIAL_INITIAL_POINT: u32 = 50;

/// A turn of the dial by a number of clicks, towards lower or towards higher positions.
#[derive(Debug, Clone, Copy, PartialEq, Eq, Structural)]
pub enum DialRotation {
    Left(u32),
    Right(u32),
}

impl DialRotation {
    /// The number of clicks of the turn.
    pub open spec fn clicks(self) -> nat {
        match self {
            DialRotation::Left(n) => n as nat,
            DialRotation::Right(n) => n as nat,
        }
    }

    /// The number of clicks of the turn.
    pub fn count(&self) -> (n: u32)
        ensures
            n == self.clicks(),
    {
        match self {
            DialRotation::Left(n) => *n,
            DialRotation::Right(n) => *n,
        }
    }
}

/// Where a dial that points at `from` points after the first `k` clicks of `rotation`.
pub open spec fn position_after(from: int, rotation: DialRotation, k: nat) -> int {
    match rotation {
        DialRotation::Left(_) => (from - k) % (DIAL_SIZE as int),
        DialRotation::Right(_) => (from + k) % (DIAL_SIZE as int),
    }
}

/// Among the first `k` clicks of `rotation`, starting from `from`, the number after which the
/// dial points at zero.
pub open spec fn zero_clicks(from: int, rotation: DialRotation, k: nat) -> nat
    decreases k,
{
    if k == 0 {
        0
    } else {
        let before = zero_clicks(from, rotation, (k - 1) as nat);
        if position_after(from, rotation, k) == 0 {
            before + 1
        } else {
            before
        }
    }
}

/// Turning to the right, the dial points at zero once each time the clicks made so far,
/// counted from position zero, reach a multiple of the dial size.
proof fn lemma_zero_clicks_right(from: int, n: u32, k: nat)
    requires
        0 <= from < DIAL_SIZE,
    ensures
        zero_clicks(from, DialRotation::Right(n), k) == (from + k) / (DIAL_SIZE as int),
    decreases k,
{
    if k > 0 {
        lemma_zero_clicks_right(from, n, (k - 1) as nat);
    }
}

/// Turning to the left, the dial first points at zero after as many clicks as its position, or
/// after a full tour when it starts at zero, and then once every full tour.
proof fn lemma_zero_clicks_left(from: int, n: u32, k: nat)
    requires
        0 <= from < DIAL_SIZE,
    ensures
        zero_clicks(from, DialRotation::Left(n), k) == if from == 0 {
            k as int / (DIAL_SIZE as int)
        } else {
            (k + DIAL_SIZE - from) / (DIAL_SIZE as int)
        },
    decreases k,
{
    if k > 0 {
        lemma_zero_clicks_left(from, n, (k - 1) as nat);
    }
}

/// A dial with `DIAL_SIZE` positions, numbered from zero.
#[derive(Debug)]
pub struct Dial {
    pointing: u32,
}

impl View for Dial {
    type V = int;

    /// The position the dial points at.
    closed spec fn view(&self) -> int {
        self.pointing as int
    }
}

impl Dial {
    /// Every dial that exists at run time points at one of its positions.
    #[verifier::type_invariant]
    pub open spec fn wf(&self) -> bool {
        0 <= self@ < DIAL_SIZE
    }

    /// A dial at its initial position.
    pub fn new() -> (dial: Self)
        ensures
            dial@ == DIAL_INITIAL_POINT,
    {
        Self { pointing: DIAL_INITIAL_POINT }
    }

    /// A dial at `position`, or nothing when the dial has no such position.
    pub fn with_position(position: u32) -> (made: Option<Self>)
        ensures
            position >= DIAL_SIZE ==> made.is_none(),
            position < DIAL_SIZE ==> made.is_some() && made.unwrap()@ == position,
    {
        if position < DIAL_SIZE {
            Some(Self { pointing: position })
        } else {
            None
        }
    }

    /// The position the dial points at.
    pub fn at(&self) -> (position: u32)
        ensures
            position == self@,
            position < DIAL_SIZE,
    {
        proof {
            use_type_invariant(self);
        }
        self.pointing
    }

    /// Turns the dial.
    pub fn rotate(&mut self, rotation: DialRotation)
        ensures
            final(self)@ == position_after(old(self)@, rotation, rotation.clicks()),
    {
        proof {
            use_type_invariant(&*self);
        }
        match rotation {
            DialRotation::Left(n) => {
                let n = DIAL_SIZE - (n % DIAL_SIZE);
                self.pointing = (self.pointing + n) % DIAL_SIZE;
            },
            DialRotation::Right(n) => {
                let n = n % DIAL_SIZE;
                self.pointing = (self.pointing + n) % DIAL_SIZE;
            },
        };
    }

    /// Turns the dial and says after how many of the clicks it pointed at zero.
    pub fn rotate_and_count(&mut self, rotation: DialRotation) -> (zeros: u32)
        ensures
            final(self)@ == position_after(old(self)@, rotation, rotation.clicks()),
            zeros == zero_clicks(old(self)@, rotation, rotation.clicks()),
    {
        proof {
            use_type_invariant(&*self);
            match rotation {
                DialRotation::Left(n) => lemma_zero_clicks_left(self@, n, n as nat),
                DialRotation::Right(n) => lemma_zero_clicks_right(self@, n, n as nat),
            }
        }
        let complete_tours = rotation.count() / DIAL_SIZE;
        let prev_point = self.pointing;
        self.rotate(rotation);
        if prev_point == self.pointing {
            return complete_tours;
        }
        let mut zero_count = complete_tours;
        match rotation {
            DialRotation::Left(_) => {
                if prev_point < self.pointing && prev_point != 0 {
                    zero_count += 1;
                } else if self.pointing == 0 {
                    zero_count += 1;
                }
            },
            DialRotation::Right(_) => {
                if self.pointing < prev_point {
                    zero_count += 1;
                }
            },
        }
        zero_count
    }
}

/// The byte `R`, which marks a turn to the right.
pub const RIGHT_MARK: u8 = 0x52;

/// The rotation that a line of text names: a letter, `R` for right and any other for left,
/// then the number of clicks in base ten. Nothing when the line is not of that form or the
/// number does not fit in 32 bits.
pub open spec fn rotation_of(line: Seq<u8>) -> Option<DialRotation> {
    if line.len() > 0 && is_unsigned(line.skip(1)) && unsigned_value(line.skip(1)) <= u32::MAX {
        if line[0] == RIGHT_MARK {
            Some(DialRotation::Right(unsigned_value(line.skip(1)) as u32))
        } else {
            Some(DialRotation::Left(unsigned_value(line.skip(1)) as u32))
        }
    } else {
        None
    }
}

/// Where a dial that points at `from` points after all of `rotations`.
pub open spec fn final_position(from: int, rotations: Seq<DialRotation>) -> int
    decreases rotations.len(),
{
    if rotations.len() == 0 {
        from
    } else {
        position_after(
            final_position(from, rotations.drop_last()),
            rotations.last(),
            rotations.last().clicks(),
        )
    }
}

/// How many of `rotations` leave a dial that started at `from` pointing at zero.
pub open spec fn stops_at_zero(from: int, rotations: Seq<DialRotation>) -> nat
    decreases rotations.len(),
{
    if rotations.len() == 0 {
        0
    } else {
        stops_at_zero(from, rotations.drop_last()) + if final_position(from, rotations) == 0 {
            1nat
        } else {
            0nat
        }
    }
}

/// After how many clicks of `rotations` a dial that started at `from` points at zero.
pub open spec fn passes_of_zero(from: int, rotations: Seq<DialRotation>) -> nat
    decreases rotations.len(),
{
    if rotations.len() == 0 {
        0
    } else {
        passes_of_zero(from, rotations.drop_last()) + zero_clicks(
            final_position(from, rotations.drop_last()),
            rotations.last(),
            rotations.last().clicks(),
        )
    }
}

/// More rotations pass zero no fewer times.
proof fn lemma_passes_grow(from: int, rotations: Seq<DialRotation>, k: int)
    requires
        0 <= k <= rotations.len(),
    ensures
        passes_of_zero(from, rotations.take(k)) <= passes_of_zero(from, rotations),
    decreases rotations.len() - k,
{
    if k < rotations.len() {
        lemma_passes_grow(from, rotations.drop_last(), k);
        assert(rotations.drop_last().take(k) == rotations.take(k));
    } else {
        assert(rotations.take(k) == rotations);
    }
}

/// Reads one rotation from a line.
fn parse_rotation(line: &[u8]) -> (parsed: Option<DialRotation>)
    ensures
        parsed == rotation_of(line@),
{
    if line.len() == 0 {
        return None;
    }
    let count = match parse_unsigned(slice_subrange(line, 1, line.len()), 0xffff_ffff) {
        Some(count) => count as u32,
        None => {
            return None;
        },
    };
    if line[0] == RIGHT_MARK {
        Some(DialRotation::Right(count))
    } else {
        Some(DialRotation::Left(count))
    }
}

/// Reads the rotations that `content` lists, one on each line.
pub fn read_input(content: &str) -> (parsed: Result<Vec<DialRotation>, Malformed>)
    ensures
        match parsed {
            Ok(rotations) => {
                &&& rotations@.len() == lines_of(content.spec_bytes()).len()
                &&& forall|k: int|
                    0 <= k < rotations@.len() ==> rotation_of(
                        #[trigger] lines_of(content.spec_bytes())[k],
                    ) == Some(rotations@[k])
            },
            Err(Malformed { at }) => {
                &&& at < lines_of(content.spec_bytes()).len()
                &&& rotation_of(lines_of(content.spec_bytes())[at as int]).is_none()
                &&& forall|k: int|
                    0 <= k < at ==> rotation_of(
                        #[trigger] lines_of(content.spec_bytes())[k],
                    ).is_some()
            },
        },
{
    let all = lines(content.as_bytes());
    let ghost texts = lines_of(content.spec_bytes());
    let mut rots: Vec<DialRotation> = Vec::new();
    let mut i: usize = 0;
    while i < all.len()
        invariant
            i <= all@.len(),
            contents(all@) == texts,
            texts == lines_of(content.spec_bytes()),
            rots@.len() == i,
            forall|k: int| 0 <= k < i ==> rotation_of(#[trigger] texts[k]) == Some(rots@[k]),
        decreases all@.len() - i,
    {
        match parse_rotation(all[i]) {
            Some(rotation) => {
                rots.push(rotation);
            },
            None => {
                return Err(Malformed { at: i });
            },
        }
        i += 1;
    }
    Ok(rots)
}

/// The two passwords that `rotations` give on a new dial: how many rotations leave it
/// pointing at zero, and after how many single clicks it points at zero. Nothing when the
/// second does not fit in 64 bits.
pub fn solve(rotations: &Vec<DialRotation>) -> (passwords: Option<(u64, u64)>)
    ensures
        passwords == if passes_of_zero(DIAL_INITIAL_POINT as int, rotations@) <= u64::MAX {
            Some(
                (
                    stops_at_zero(DIAL_INITIAL_POINT as int, rotations@) as u64,
                    passes_of_zero(DIAL_INITIAL_POINT as int, rotations@) as u64,
                ),
            )
        } else {
            None
        },
{
    let ghost from = DIAL_INITIAL_POINT as int;
    let ghost all = rotations@;
    let mut dial = Dial::new();
    let mut zero_count: u64 = 0;
    let mut i: usize = 0;
    while i < rotations.len()
        invariant
            i <= all.len(),
            all == rotations@,
            dial@ == final_position(from, all.take(i as int)),
            zero_count == stops_at_zero(from, all.take(i as int)),
            zero_count <= i,
        decreases all.len() - i,
    {
        assert(all.take(i + 1).drop_last() == all.take(i as int));
        dial.rotate(rotations[i]);
        if dial.at() == 0 {
            zero_count += 1;
        }
        i += 1;
    }
    assert(all.take(i as int) == all);

    let mut dial = Dial::new();
    let mut total_zero_count: u64 = 0;
    let mut i: usize = 0;
    while i < rotations.len()
        invariant
            i <= all.len(),
            all == rotations@,
            from == DIAL_INITIAL_POINT,
            dial@ == final_position(from, all.take(i as int)),
            total_zero_count == passes_of_zero(from, all.take(i as int)),
        decreases all.len() - i,
    {
        proof {
            assert(all.take(i + 1).drop_last() == all.take(i as int));
            lemma_passes_grow(from, all, i + 1);
        }
        let passed = dial.rotate_and_count(rotations[i]);
        total_zero_count = match total_zero_count.checked_add(passed as u64) {
            Some(sum) => sum,
            None => {
                return None;
            },
        };
        i += 1;
    }
    Some((zero_count, total_zero_count))
}

} // verus!
