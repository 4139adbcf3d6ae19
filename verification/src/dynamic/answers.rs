//! What the row encoder asks its caller: floating point arithmetic and the
//! reading of IPv6 addresses.

use vstd::prelude::*;
use vstd::string::*;

use crate::text::same_text;

verus! {

/// A double, with what it becomes as other numbers.
#[derive(Debug, Clone, Copy, PartialEq, Eq, Structural)]
pub struct Float {
    /// The bits of the double.
    pub bits: u64,
    /// The bits of the nearest single.
    pub single: u32,
    /// The double cast to `u64`: towards zero, saturating, 0 for NaN.
    pub unsigned: u64,
    /// The double cast to `i64`: towards zero, saturating, 0 for NaN.
    pub signed: i64,
}

/// Half of the patterns of 64 bits; the doubles with the sign bit stand in the
/// upper half.
pub const SIGN_BIT: u64 = 0x8000_0000_0000_0000;

impl Float {
    /// Whether the double, cut towards zero, is a `u64`: it lies above -1 and
    /// below two to the 64. The bits of doubles of one sign are in the order of
    /// their magnitudes.
    pub open spec fn within_u64(self) -> bool {
        if self.bits < SIGN_BIT {
            self.bits < 0x43f0_0000_0000_0000
        } else {
            self.bits - SIGN_BIT < 0x3ff0_0000_0000_0000
        }
    }

    /// Whether the double, cut towards zero, is an `i64`: it lies from minus
    /// two to the 63 on and below two to the 63.
    pub open spec fn within_i64(self) -> bool {
        if self.bits < SIGN_BIT {
            self.bits < 0x43e0_0000_0000_0000
        } else {
            self.bits - SIGN_BIT <= 0x43e0_0000_0000_0000
        }
    }

    /// Whether the double is not a number.
    pub open spec fn is_nan(self) -> bool {
        self.bits % SIGN_BIT > 0x7ff0_0000_0000_0000
    }

    /// Whether the nearest single is an infinity and the double is none.
    pub open spec fn is_past_single(self) -> bool {
        self.single % 0x8000_0000 == 0x7f80_0000 && self.bits % SIGN_BIT < 0x7ff0_0000_0000_0000
    }

    pub(crate) fn overflows_single(&self) -> (yes: bool)
        ensures
            yes == self.is_past_single(),
    {
        self.single % 0x8000_0000 == 0x7f80_0000 && self.bits % SIGN_BIT < 0x7ff0_0000_0000_0000
    }

    pub(crate) fn fits_u64(&self) -> (yes: bool)
        ensures
            yes == self.within_u64(),
    {
        if self.bits < SIGN_BIT {
            self.bits < 0x43f0_0000_0000_0000
        } else {
            self.bits - SIGN_BIT < 0x3ff0_0000_0000_0000
        }
    }

    pub(crate) fn fits_i64(&self) -> (yes: bool)
        ensures
            yes == self.within_i64(),
    {
        if self.bits < SIGN_BIT {
            self.bits < 0x43e0_0000_0000_0000
        } else {
            self.bits - SIGN_BIT <= 0x43e0_0000_0000_0000
        }
    }

    pub(crate) fn not_a_number(&self) -> (yes: bool)
        ensures
            yes == self.is_nan(),
    {
        self.bits % SIGN_BIT > 0x7ff0_0000_0000_0000
    }
}

/// One question to the caller.
#[derive(Debug)]
pub enum Question {
    /// The double that a text spells, if any.
    Float(String),
    /// A double times ten to the `scale`, rounded half away from zero, where
    /// that is an `i128`.
    Scaled {
        /// The bits of the double.
        bits: u64,
        /// The power of ten.
        scale: u8,
    },
    /// The sixteen octets of the IPv6 address that a text spells, if any.
    Ipv6(String),
}

/// The mathematical value of a [`Question`].
pub enum QuestionView {
    Float(Seq<char>),
    Scaled { bits: u64, scale: u8 },
    Ipv6(Seq<char>),
}

impl View for Question {
    type V = QuestionView;

    open spec fn view(&self) -> QuestionView {
        match *self {
            Question::Float(s) => QuestionView::Float(s@),
            Question::Scaled { bits, scale } => QuestionView::Scaled { bits, scale },
            Question::Ipv6(s) => QuestionView::Ipv6(s@),
        }
    }
}

/// The answers supplied so far.
pub struct Answers {
    floats: Vec<(String, Option<Float>)>,
    scaled: Vec<(u64, u8, Option<i128>)>,
    addresses: Vec<(String, Option<[u8; 16]>)>,
}

/// The mathematical value of [`Answers`].
pub struct AnswersView {
    pub floats: Seq<(Seq<char>, Option<Float>)>,
    pub scaled: Seq<(u64, u8, Option<i128>)>,
    pub addresses: Seq<(Seq<char>, Option<Seq<u8>>)>,
}

/// The octets of an optional address.
pub open spec fn octets_of(a: Option<[u8; 16]>) -> Option<Seq<u8>> {
    match a {
        Some(o) => Some(o@),
        None => None,
    }
}

/// The latest entry under `text`.
pub open spec fn entry_of<T>(entries: Seq<(Seq<char>, T)>, text: Seq<char>) -> Option<T>
    decreases entries.len(),
{
    if entries.len() == 0 {
        None
    } else if entries.last().0 == text {
        Some(entries.last().1)
    } else {
        entry_of(entries.drop_last(), text)
    }
}

/// The latest product of `bits` and ten to the `scale`.
pub open spec fn product_of(entries: Seq<(u64, u8, Option<i128>)>, bits: u64, scale: u8) -> Option<
    Option<i128>,
>
    decreases entries.len(),
{
    if entries.len() == 0 {
        None
    } else if entries.last().0 == bits && entries.last().1 == scale {
        Some(entries.last().2)
    } else {
        product_of(entries.drop_last(), bits, scale)
    }
}

impl View for Answers {
    type V = AnswersView;

    closed spec fn view(&self) -> AnswersView {
        AnswersView {
            floats: self.floats@.map_values(|e: (String, Option<Float>)| (e.0@, e.1)),
            scaled: self.scaled@,
            addresses: self.addresses@.map_values(
                |e: (String, Option<[u8; 16]>)| (e.0@, octets_of(e.1)),
            ),
        }
    }
}

impl Answers {
    /// No answer supplied yet.
    pub fn new() -> (out: Self)
        ensures
            out@ == (AnswersView { floats: seq![], scaled: seq![], addresses: seq![] }),
    {
        let out = Answers { floats: Vec::new(), scaled: Vec::new(), addresses: Vec::new() };
        assert(out@.floats =~= seq![]);
        assert(out@.scaled =~= seq![]);
        assert(out@.addresses =~= seq![]);
        out
    }

    /// Supply the double that `text` spells.
    pub fn supply_float(&mut self, text: String, answer: Option<Float>)
        ensures
            final(self)@ == (AnswersView {
                floats: old(self)@.floats.push((text@, answer)),
                ..old(self)@
            }),
            entry_of(final(self)@.floats, text@) == Some(answer),
    {
        self.floats.push((text, answer));
        assert(self@.floats =~= old(self)@.floats.push((text@, answer)));
    }

    /// Supply a double times a power of ten; `None` where it is no `i128`.
    pub fn supply_scaled(&mut self, bits: u64, scale: u8, answer: Option<i128>)
        ensures
            final(self)@ == (AnswersView {
                scaled: old(self)@.scaled.push((bits, scale, answer)),
                ..old(self)@
            }),
            product_of(final(self)@.scaled, bits, scale) == Some(answer),
    {
        self.scaled.push((bits, scale, answer));
    }

    /// Supply the IPv6 address that `text` spells.
    pub fn supply_ipv6(&mut self, text: String, answer: Option<[u8; 16]>)
        ensures
            final(self)@ == (AnswersView {
                addresses: old(self)@.addresses.push((text@, octets_of(answer))),
                ..old(self)@
            }),
            entry_of(final(self)@.addresses, text@) == Some(octets_of(answer)),
    {
        self.addresses.push((text, answer));
        assert(self@.addresses =~= old(self)@.addresses.push((text@, octets_of(answer))));
    }

    /// The double that `text` spells, where it has been supplied.
    pub fn float(&self, text: &str) -> (out: Option<Option<Float>>)
        ensures
            out == entry_of(self@.floats, text@),
    {
        let mut n: usize = self.floats.len();
        assert(self@.floats.take(n as int) =~= self@.floats);
        while n > 0
            invariant
                n <= self.floats.len(),
                self@.floats.len() == self.floats.len(),
                entry_of(self@.floats.take(n as int), text@) == entry_of(self@.floats, text@),
            decreases n,
        {
            let entry = &self.floats[n - 1];
            proof {
                let s = self@.floats.take(n as int);
                assert(s.last() == (entry.0@, entry.1));
                assert(s.drop_last() =~= self@.floats.take(n - 1));
            }
            if same_text(entry.0.as_str(), text) {
                return Some(entry.1);
            }
            n -= 1;
        }
        None
    }

    /// A double times a power of ten, where it has been supplied.
    pub fn scaled(&self, bits: u64, scale: u8) -> (out: Option<Option<i128>>)
        ensures
            out == product_of(self@.scaled, bits, scale),
    {
        let mut n: usize = self.scaled.len();
        assert(self@.scaled.take(n as int) =~= self@.scaled);
        while n > 0
            invariant
                n <= self.scaled.len(),
                self@.scaled == self.scaled@,
                product_of(self@.scaled.take(n as int), bits, scale) == product_of(
                    self@.scaled,
                    bits,
                    scale,
                ),
            decreases n,
        {
            let entry = &self.scaled[n - 1];
            proof {
                let s = self@.scaled.take(n as int);
                assert(s.last() == *entry);
                assert(s.drop_last() =~= self@.scaled.take(n - 1));
            }
            if entry.0 == bits && entry.1 == scale {
                return Some(entry.2);
            }
            n -= 1;
        }
        None
    }

    /// The IPv6 address that `text` spells, where it has been supplied.
    pub fn ipv6(&self, text: &str) -> (out: Option<Option<[u8; 16]>>)
        ensures
            match out {
                Some(a) => entry_of(self@.addresses, text@) == Some(octets_of(a)),
                None => entry_of(self@.addresses, text@) is None,
            },
    {
        let mut n: usize = self.addresses.len();
        assert(self@.addresses.take(n as int) =~= self@.addresses);
        while n > 0
            invariant
                n <= self.addresses.len(),
                self@.addresses.len() == self.addresses.len(),
                entry_of(self@.addresses.take(n as int), text@) == entry_of(
                    self@.addresses,
                    text@,
                ),
            decreases n,
        {
            let entry = &self.addresses[n - 1];
            proof {
                let s = self@.addresses.take(n as int);
                assert(s.last() == (entry.0@, octets_of(entry.1)));
                assert(s.drop_last() =~= self@.addresses.take(n - 1));
            }
            if same_text(entry.0.as_str(), text) {
                return Some(entry.1);
            }
            n -= 1;
        }
        None
    }
}

} // verus!
