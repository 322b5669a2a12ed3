//! Rendering of personal-best events as display text.
//!
//! The renderer is a pure function from an event to UTF-8 bytes. The caller
//! supplies the two score texts (the new score and its gain), which are
//! decimal renderings of floating-point values; everything else — banner
//! choice, rank line, run link — is decided and laid out here. Scores travel
//! through the library as raw IEEE 754 bit patterns, and the milestone banner
//! compares them with the standard IEEE 754 ordering, which is plain integer
//! logic on sign, exponent and mantissa.

use vstd::prelude::*;
use vstd::utf8::encode_utf8;

use crate::lb::{Pb, PbV};

verus! {

/// Bit pattern of the single-precision value 400.0, the milestone threshold.
pub const MILESTONE_BITS: u32 = 0x43C8_0000;

/// True when the bit pattern encodes a NaN: exponent all ones, mantissa not zero.
pub open spec fn score_is_nan(bits: u32) -> bool {
    (bits >> 23) & 0xff == 0xff && bits & 0x7fffff != 0
}

/// IEEE 754 `<` on single-precision bit patterns. False whenever either side
/// is NaN; positive and negative zero compare equal.
pub open spec fn score_lt(a: u32, b: u32) -> bool {
    if score_is_nan(a) || score_is_nan(b) {
        false
    } else {
        let am = a & 0x7fff_ffff;
        let bm = b & 0x7fff_ffff;
        if a >> 31 == b >> 31 {
            if a >> 31 == 0 {
                am < bm
            } else {
                am > bm
            }
        } else {
            a >> 31 == 1 && !(am == 0 && bm == 0)
        }
    }
}

/// IEEE 754 `==` on single-precision bit patterns.
pub open spec fn score_eq(a: u32, b: u32) -> bool {
    !score_is_nan(a) && !score_is_nan(b) && (a == b || (a & 0x7fff_ffff == 0 && b & 0x7fff_ffff
        == 0))
}

/// IEEE 754 `>` on single-precision bit patterns.
pub open spec fn score_gt(a: u32, b: u32) -> bool {
    score_lt(b, a)
}

/// IEEE 754 `<=` on single-precision bit patterns.
pub open spec fn score_le(a: u32, b: u32) -> bool {
    score_lt(a, b) || score_eq(a, b)
}

/// Decides IEEE 754 `>` on single-precision bit patterns.
pub fn score_gt_bits(a: u32, b: u32) -> (r: bool)
    ensures
        r == score_gt(a, b),
{
    score_lt_bits(b, a)
}

/// Decides IEEE 754 `<=` on single-precision bit patterns.
pub fn score_le_bits(a: u32, b: u32) -> (r: bool)
    ensures
        r == score_le(a, b),
{
    if score_lt_bits(a, b) {
        true
    } else {
        let a_nan = (a >> 23) & 0xff == 0xff && a & 0x7fffff != 0;
        let b_nan = (b >> 23) & 0xff == 0xff && b & 0x7fffff != 0;
        !a_nan && !b_nan && (a == b || (a & 0x7fff_ffff == 0 && b & 0x7fff_ffff == 0))
    }
}

/// Decides IEEE 754 `<` on single-precision bit patterns.
pub fn score_lt_bits(a: u32, b: u32) -> (r: bool)
    ensures
        r == score_lt(a, b),
{
    let a_nan = (a >> 23) & 0xff == 0xff && a & 0x7fffff != 0;
    let b_nan = (b >> 23) & 0xff == 0xff && b & 0x7fffff != 0;
    if a_nan || b_nan {
        false
    } else {
        let am = a & 0x7fff_ffff;
        let bm = b & 0x7fff_ffff;
        if a >> 31 == b >> 31 {
            if a >> 31 == 0 {
                am < bm
            } else {
                am > bm
            }
        } else {
            a >> 31 == 1 && !(am == 0 && bm == 0)
        }
    }
}

/// The UTF-8 bytes of a string literal.
pub open spec fn lit_bytes(s: &str) -> Seq<u8> {
    encode_utf8(s@)
}

/// The ASCII decimal digits of a number, most significant first.
pub open spec fn dec_bytes(n: nat) -> Seq<u8>
    decreases n,
{
    if n < 10 {
        seq![(n + 48) as u8]
    } else {
        dec_bytes(n / 10) + seq![(n % 10 + 48) as u8]
    }
}

/// The banner line of an event: a world record when the new entry holds rank
/// one, else the milestone banner when the score crossed 400 upward, else
/// nothing. Rank one takes precedence; a first appearance gets no banner.
pub open spec fn banner(p: PbV) -> Seq<u8> {
    match p.old {
        Some(o) => if p.new.rank == 1 {
            lit_bytes("---  NEW WORLD RECORD  ---\n")
        } else if score_gt(p.new.score_bits, MILESTONE_BITS) && score_le(
            o.score_bits,
            MILESTONE_BITS,
        ) {
            lit_bytes("---  NEW 400  ---\n")
        } else {
            Seq::empty()
        },
        None => Seq::empty(),
    }
}

/// The score line of an event: the name, the new score, and — when the
/// participant already stood on the board — the gain.
pub open spec fn score_line(p: PbV, score_text: Seq<u8>, delta_text: Seq<u8>) -> Seq<u8> {
    match p.old {
        Some(_) => p.new.name + lit_bytes(" just got a new high score! Score: ") + score_text
            + lit_bytes(" (+") + delta_text + lit_bytes(")\n"),
        None => p.new.name + lit_bytes(" just got a new high score! Score: ") + score_text
            + lit_bytes("\n"),
    }
}

/// The rank line of an event: the new rank, with the number of ranks gained
/// when the rank did not get worse.
pub open spec fn rank_line(p: PbV) -> Seq<u8> {
    match p.old {
        Some(o) => if o.rank >= p.new.rank {
            lit_bytes("They are now rank #") + dec_bytes(p.new.rank as nat) + lit_bytes(
                ", gaining ",
            ) + dec_bytes((o.rank - p.new.rank) as nat) + lit_bytes(" ranks.\n")
        } else {
            lit_bytes("They are now rank #") + dec_bytes(p.new.rank as nat) + lit_bytes(".\n")
        },
        None => lit_bytes("They are now rank #") + dec_bytes(p.new.rank as nat) + lit_bytes("\n"),
    }
}

/// The footer line of an event: the in-game link to the new run.
pub open spec fn footer(p: PbV) -> Seq<u8> {
    lit_bytes("Watch in-game: hyperdemon://run/") + dec_bytes(p.new.run_id as nat) + lit_bytes(
        "\n",
    )
}

/// The full rendering of an event: banner, score line, rank line, footer.
pub open spec fn spec_render(p: PbV, score_text: Seq<u8>, delta_text: Seq<u8>) -> Seq<u8> {
    banner(p) + score_line(p, score_text, delta_text) + rank_line(p) + footer(p)
}

/// Law: when the new entry holds rank one, the banner is the world-record
/// banner and is not the milestone banner, even on an event whose score also
/// crossed the milestone upward.
pub proof fn lemma_world_record_precedence(p: PbV)
    requires
        p.old is Some,
        p.new.rank == 1,
    ensures
        banner(p) == lit_bytes("---  NEW WORLD RECORD  ---\n"),
        banner(p) != lit_bytes("---  NEW 400  ---\n"),
{
    let w = "---  NEW WORLD RECORD  ---\n"@;
    let f = "---  NEW 400  ---\n"@;
    reveal_strlit("---  NEW WORLD RECORD  ---\n");
    reveal_strlit("---  NEW 400  ---\n");
    assert(w.len() == 27);
    assert(f.len() == 18);
    if encode_utf8(w) == encode_utf8(f) {
        vstd::utf8::encode_utf8_decode_utf8(w);
        vstd::utf8::encode_utf8_decode_utf8(f);
        assert(w == f);
        assert(false);
    }
}

/// Appends the UTF-8 bytes of a string slice.
fn push_str_bytes(out: &mut Vec<u8>, s: &str)
    ensures
        final(out)@ == old(out)@ + lit_bytes(s),
{
    let bytes = s.as_bytes();
    let mut i: usize = 0;
    while i < bytes.len()
        invariant
            i <= bytes@.len(),
            bytes@ == lit_bytes(s),
            out@ == old(out)@ + bytes@.take(i as int),
        decreases bytes@.len() - i,
    {
        out.push(bytes[i]);
        assert(out@ =~= old(out)@ + bytes@.take(i as int + 1));
        i = i + 1;
    }
    assert(bytes@.take(bytes@.len() as int) =~= bytes@);
}

/// Appends a byte vector.
fn push_bytes(out: &mut Vec<u8>, b: &Vec<u8>)
    ensures
        final(out)@ == old(out)@ + b@,
{
    let mut i: usize = 0;
    while i < b.len()
        invariant
            i <= b@.len(),
            out@ == old(out)@ + b@.take(i as int),
        decreases b@.len() - i,
    {
        out.push(b[i]);
        assert(out@ =~= old(out)@ + b@.take(i as int + 1));
        i = i + 1;
    }
    assert(b@.take(b@.len() as int) =~= b@);
}

/// Appends the ASCII decimal digits of a number.
fn push_dec(out: &mut Vec<u8>, n: u32)
    ensures
        final(out)@ == old(out)@ + dec_bytes(n as nat),
    decreases n,
{
    if n >= 10 {
        push_dec(out, n / 10);
        out.push((n % 10) as u8 + 48);
        assert(out@ =~= old(out)@ + dec_bytes(n as nat));
    } else {
        out.push(n as u8 + 48);
        assert(out@ =~= old(out)@ + dec_bytes(n as nat));
    }
}

impl Pb {
    /// Renders this event as display text, in UTF-8 bytes.
    ///
    /// `score_text` is the rendering of the new score and `delta_text` the
    /// rendering of its gain over the previous score; the caller renders
    /// both, since they are texts of floating-point values. `delta_text` only
    /// appears when the event has a previous entry.
    pub fn render(&self, score_text: &Vec<u8>, delta_text: &Vec<u8>) -> (r: Vec<u8>)
        ensures
            r@ == spec_render(self@, score_text@, delta_text@),
    {
        let mut out: Vec<u8> = Vec::new();
        match &self.old {
            Some(o) => {
                if self.new.rank == 1 {
                    push_str_bytes(&mut out, "---  NEW WORLD RECORD  ---\n");
                } else if score_gt_bits(self.new.score_bits, MILESTONE_BITS) && score_le_bits(
                    o.score_bits,
                    MILESTONE_BITS,
                ) {
                    push_str_bytes(&mut out, "---  NEW 400  ---\n");
                }
                assert(out@ =~= banner(self@));
                push_bytes(&mut out, &self.new.name);
                push_str_bytes(&mut out, " just got a new high score! Score: ");
                push_bytes(&mut out, score_text);
                push_str_bytes(&mut out, " (+");
                push_bytes(&mut out, delta_text);
                push_str_bytes(&mut out, ")\n");
                assert(out@ =~= banner(self@) + score_line(self@, score_text@, delta_text@));
                push_str_bytes(&mut out, "They are now rank #");
                push_dec(&mut out, self.new.rank as u32);
                if o.rank >= self.new.rank {
                    push_str_bytes(&mut out, ", gaining ");
                    push_dec(&mut out, (o.rank - self.new.rank) as u32);
                    push_str_bytes(&mut out, " ranks.\n");
                } else {
                    push_str_bytes(&mut out, ".\n");
                }
                assert(out@ =~= banner(self@) + score_line(self@, score_text@, delta_text@)
                    + rank_line(self@));
            },
            None => {
                assert(out@ =~= banner(self@));
                push_bytes(&mut out, &self.new.name);
                push_str_bytes(&mut out, " just got a new high score! Score: ");
                push_bytes(&mut out, score_text);
                push_str_bytes(&mut out, "\n");
                assert(out@ =~= banner(self@) + score_line(self@, score_text@, delta_text@));
                push_str_bytes(&mut out, "They are now rank #");
                push_dec(&mut out, self.new.rank as u32);
                push_str_bytes(&mut out, "\n");
                assert(out@ =~= banner(self@) + score_line(self@, score_text@, delta_text@)
                    + rank_line(self@));
            },
        }
        push_str_bytes(&mut out, "Watch in-game: hyperdemon://run/");
        push_dec(&mut out, self.new.run_id);
        push_str_bytes(&mut out, "\n");
        assert(out@ =~= spec_render(self@, score_text@, delta_text@));
        out
    }
}

} // verus!
