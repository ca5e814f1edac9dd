//! Positions in the write-ahead log.
use crate::text::{parse_number, parsed_number, push_number, upper_hex};
use vstd::prelude::*;

verus! {

/// A log sequence number: a byte position in the write-ahead log.
#[derive(Debug, Clone, Copy, PartialEq, Eq, PartialOrd, Ord, Hash, Structural)]
pub struct Lsn(pub u64);

/// The position that a text in base sixteen stands for.
pub open spec fn parsed_lsn(s: Seq<char>) -> Option<Lsn> {
    match parsed_number(s, 16, u64::MAX as nat) {
        Some(n) => Some(Lsn(n as u64)),
        None => None,
    }
}

impl Lsn {
    /// The text of a position: its upper and lower half in base sixteen with a
    /// slash between them.
    pub open spec fn text(self) -> Seq<char> {
        upper_hex((self.0 / 0x1_0000_0000) as nat, 1).push('/') + upper_hex(
            (self.0 % 0x1_0000_0000) as nat,
            1,
        )
    }

    /// Reads a position written in base sixteen without a slash.
    pub fn from_hex(s: &Vec<char>) -> (lsn: Option<Lsn>)
        ensures
            lsn == parsed_lsn(s@),
    {
        match parse_number(s, 16, u64::MAX) {
            Some(n) => Some(Lsn(n)),
            None => None,
        }
    }

    /// Appends the text of the position.
    pub fn push_text(self, out: &mut String)
        ensures
            final(out)@ == old(out)@ + self.text(),
    {
        push_number(out, (self.0 / 0x1_0000_0000) as u128, 16, true, 1);
        proof {
            reveal_strlit("/");
        }
        out.append("/");
        push_number(out, (self.0 % 0x1_0000_0000) as u128, 16, true, 1);
        assert(out@ =~= old(out)@ + self.text());
    }
}

/// A position is written as its upper half, a slash and its lower half.
pub proof fn law_position_text(high: u32, low: u32)
    ensures
        Lsn((high * 0x1_0000_0000 + low) as u64).text() == upper_hex(high as nat, 1) + seq!['/']
            + upper_hex(low as nat, 1),
{
    let n = (high * 0x1_0000_0000 + low) as u64;
    assert(n / 0x1_0000_0000 == high);
    assert(n % 0x1_0000_0000 == low);
    assert(Lsn(n).text() =~= upper_hex(high as nat, 1) + seq!['/'] + upper_hex(low as nat, 1));
}

/// A text is read as a position if and only if it is the text of its number in base
/// sixteen.
pub proof fn law_position_read(s: Seq<char>, lsn: Lsn)
    ensures
        parsed_lsn(s) == Some(lsn) <==> parsed_number(s, 16, u64::MAX as nat) == Some(lsn.0 as nat),
{
}

} // verus!
