//! The character set of names that are not Unicode.
use crate::utils::text;
use vstd::prelude::*;
use vstd::string::*;
use vstd::utf8::*;

verus! {

/// The characters of the bytes from 0x80 on, in order.
pub const HIGH: &'static str =
    "ÇüéâäàåçêëèïîìÄÅÉæÆôöòûùÿÖÜ¢£¥₧ƒáíóúñÑªº¿⌐¬½¼¡«»░▒▓│┤╡╢╖╕╣║╗╝╜╛┐└┴┬├─┼╞╟╚╔╩╦╠═╬╧╨╤╥╙╘╒╓╫╪┘┌█▄▌▐▀αßΓπΣσµτΦΘΩδ∞φε∩≡±≥≤⌠⌡÷≈°∙·√ⁿ²■\u{a0}";

/// The character of a byte: ASCII below 0x80, as in [`HIGH`] from there on.
pub open spec fn decoded(b: u8) -> char {
    if b < 0x80 {
        b as char
    } else {
        HIGH@[b - 0x80]
    }
}

/// A single ASCII byte is the text with this one character.
proof fn lemma_ascii(b: u8)
    requires
        b < 0x80,
    ensures
        valid_utf8(seq![b]),
        decode_utf8(seq![b]) == seq![b as char],
{
    reveal_with_fuel(valid_utf8, 2);
    reveal_with_fuel(decode_utf8, 2);
    assert(b & 0x7f == b) by (bit_vector)
        requires
            b < 0x80,
    ;
    assert(pop_first_scalar(seq![b]) =~= Seq::<u8>::empty());
    assert(decode_utf8(seq![b]) =~= seq![b as char]);
}

/// Decodes a text, byte by byte.
pub fn convert(raw: &[u8]) -> (r: String)
    ensures
        r@ == raw@.map_values(|b: u8| decoded(b)),
{
    let mut r = String::new();
    let mut i: usize = 0;
    while i < raw.len()
        invariant
            i <= raw@.len(),
            r@ == raw@.take(i as int).map_values(|b: u8| decoded(b)),
        decreases raw@.len() - i,
    {
        let b: u8 = raw[i];
        if b < 0x80 {
            proof {
                lemma_ascii(b);
            }
            let one = vstd::slice::slice_subrange(raw, i, i + 1);
            assert(one@ =~= seq![b]);
            match text::from_utf8(one) {
                Some(c) => {
                    proof {
                        encode_utf8_decode_utf8(c@);
                    }
                    r.append(c);
                },
                None => {},
            }
        } else {
            let at: usize = b as usize - 0x80;
            proof {
                reveal_strlit(
                    "ÇüéâäàåçêëèïîìÄÅÉæÆôöòûùÿÖÜ¢£¥₧ƒáíóúñÑªº¿⌐¬½¼¡«»░▒▓│┤╡╢╖╕╣║╗╝╜╛┐└┴┬├─┼╞╟╚╔╩╦╠═╬╧╨╤╥╙╘╒╓╫╪┘┌█▄▌▐▀αßΓπΣσµτΦΘΩδ∞φε∩≡±≥≤⌠⌡÷≈°∙·√ⁿ²■\u{a0}",
                );
            }
            r.append(HIGH.substring_char(at, at + 1));
        }
        assert(raw@.take(i + 1).map_values(|b: u8| decoded(b)) =~= raw@.take(
            i as int,
        ).map_values(|b: u8| decoded(b)).push(decoded(b)));
        assert(r@ =~= raw@.take(i + 1).map_values(|b: u8| decoded(b)));
        i += 1;
    }
    assert(raw@.take(i as int) =~= raw@);
    r
}

} // verus!
