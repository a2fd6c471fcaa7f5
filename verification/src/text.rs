//! Text: numbers in words, and pages that are written part by part.

use crate::double::Double;
use crate::json::text_views;
use bytes::Buf;
use vstd::prelude::*;
use vstd::string::StringExecFns;

verus! {

/// `String::push` of the standard library puts the character behind the text.
pub assume_specification[ String::push ](s: &mut String, c: char)
    ensures
        final(s)@ == old(s)@.push(c),
;

// ── Numbers in words ─────────────────────────────────────────────────────────

/// What `std` writes for the double with these bits, with this many digits
/// behind the point.
pub uninterp spec fn fixed_text(bits: u64, digits: usize) -> Seq<char>;

/// The format macro of `std` writes a double with a given number of digits behind
/// the point; `bytes::Buf::get_f64` reads the double off its bytes. What it writes
/// is a function of the double and the number of digits, of which there may be
/// no more than 65535.
#[verifier::external_body]
fn fixed_string(x: Double, digits: usize) -> (r: String)
    requires
        digits <= 65535,
    ensures
        r@ == fixed_text(x.bits, digits),
{
    format!("{:.1$}", (&x.bits.to_be_bytes()[..]).get_f64(), digits)
}

/// What `std` writes for the double with these bits, with as many digits as it
/// takes.
pub uninterp spec fn plain_text(bits: u64) -> Seq<char>;

/// The format macro of `std` writes a double with as many digits as it takes to
/// tell it from others; `bytes::Buf::get_f64` reads the double off its bytes.
/// What it writes is a function of the double.
#[verifier::external_body]
fn plain_string(x: Double) -> (r: String)
    ensures
        r@ == plain_text(x.bits),
{
    format!("{}", (&x.bits.to_be_bytes()[..]).get_f64())
}

/// What `std` writes for a list of texts, for debugging.
pub uninterp spec fn debug_text(names: Seq<Seq<char>>) -> Seq<char>;

/// The format macro of `std` writes a list of texts for debugging: in quotation
/// marks, with what is special escaped. What it writes is a function of the
/// texts.
#[verifier::external_body]
fn debug_string(names: &Vec<String>) -> (r: String)
    ensures
        r@ == debug_text(text_views(names@)),
{
    format!("{:?}", names)
}

/// A digit as a character.
pub open spec fn digit(n: nat) -> char {
    (48 + n) as char
}

/// A number in decimal notation.
pub open spec fn decimal(n: nat) -> Seq<char>
    decreases n,
{
    if n < 10 {
        seq![digit(n)]
    } else {
        decimal(n / 10).push(digit(n % 10))
    }
}

fn decimal_string(n: u128) -> (r: String)
    ensures
        r@ == decimal(n as nat),
    decreases n,
{
    let d: u8 = (n % 10) as u8;
    let mut r: String = if n < 10 {
        String::new()
    } else {
        decimal_string(n / 10)
    };
    r.push((48 + d) as char);
    assert(r@ =~= decimal(n as nat));
    r
}

// ── Pages ────────────────────────────────────────────────────────────────────

/// The parts of a text, one behind the other.
pub open spec fn flat(parts: Seq<Seq<char>>) -> Seq<char>
    decreases parts.len(),
{
    if parts.len() == 0 {
        Seq::empty()
    } else {
        flat(parts.drop_last()) + parts.last()
    }
}

/// A text that is written part by part.
pub(crate) struct Page {
    text: String,
    parts: Ghost<Seq<Seq<char>>>,
}

impl View for Page {
    type V = Seq<Seq<char>>;

    closed spec fn view(&self) -> Seq<Seq<char>> {
        self.parts@
    }
}

impl Page {
    pub(crate) closed spec fn wf(self) -> bool {
        self.text@ == flat(self.parts@)
    }

    pub(crate) fn blank() -> (p: Page)
        ensures
            p.wf(),
            p@ == Seq::<Seq<char>>::empty(),
    {
        let text: String = String::new();
        assert(text@ =~= Seq::empty());
        Page { text, parts: Ghost(Seq::empty()) }
    }

    pub(crate) fn say(&mut self, s: &str)
        requires
            old(self).wf(),
        ensures
            final(self).wf(),
            final(self)@ == old(self)@.push(s@),
    {
        let ghost before = self.parts@;
        self.text.append(s);
        self.parts = Ghost(before.push(s@));
        assert(before.push(s@).drop_last() =~= before);
    }

    pub(crate) fn number(&mut self, n: u128)
        requires
            old(self).wf(),
        ensures
            final(self).wf(),
            final(self)@ == old(self)@.push(decimal(n as nat)),
    {
        self.say(decimal_string(n).as_str());
    }

    pub(crate) fn fixed(&mut self, x: Double, digits: usize)
        requires
            old(self).wf(),
            digits <= 65535,
        ensures
            final(self).wf(),
            final(self)@ == old(self)@.push(fixed_text(x.bits, digits)),
    {
        self.say(fixed_string(x, digits).as_str());
    }

    pub(crate) fn plain(&mut self, x: Double)
        requires
            old(self).wf(),
        ensures
            final(self).wf(),
            final(self)@ == old(self)@.push(plain_text(x.bits)),
    {
        self.say(plain_string(x).as_str());
    }

    pub(crate) fn list(&mut self, names: &Vec<String>)
        requires
            old(self).wf(),
        ensures
            final(self).wf(),
            final(self)@ == old(self)@.push(debug_text(text_views(names@))),
    {
        self.say(debug_string(names).as_str());
    }

    pub(crate) fn into_text(self) -> (r: String)
        requires
            self.wf(),
        ensures
            r@ == flat(self@),
    {
        self.text
    }
}

} // verus!
