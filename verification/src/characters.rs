//! The character-string reader: a TXT payload packs length-prefixed text
//! strings back to back.

use vstd::prelude::*;
use vstd::utf8::{decode_utf8, valid_utf8};

use crate::error::DnsError;
use crate::text::bytes_to_str;

verus! {

/// The character strings packed in `raw` from offset `i` on: repeatedly a
/// length byte, then that many bytes of UTF-8 text.  An exhausted slice
/// ends the sequence; an empty slice holds no strings.
pub open spec fn char_strings_from(raw: Seq<u8>, i: int) -> Result<Seq<Seq<char>>, DnsError>
    decreases raw.len() - i,
{
    if !(0 <= i < raw.len()) {
        Ok(Seq::empty())
    } else {
        let length = raw[i];
        if i + 1 + length > raw.len() {
            Err(DnsError::CharactersLength)
        } else if !valid_utf8(raw.subrange(i + 1, i + 1 + length)) {
            Err(DnsError::CharactersUtf8)
        } else {
            match char_strings_from(raw, i + 1 + length) {
                Ok(rest) => Ok(seq![decode_utf8(raw.subrange(i + 1, i + 1 + length))] + rest),
                Err(e) => Err(e),
            }
        }
    }
}

/// All character strings packed in the whole slice.
pub open spec fn char_strings(raw: Seq<u8>) -> Result<Seq<Seq<char>>, DnsError> {
    char_strings_from(raw, 0)
}

/// Decodes the packed character strings of a whole slice.
pub fn get_character_strings(raw: &[u8]) -> (r: Result<Vec<String>, DnsError>)
    ensures
        match r {
            Ok(v) => char_strings(raw@) == Ok::<_, DnsError>(v.deep_view()),
            Err(e) => char_strings(raw@) == Err::<Seq<Seq<char>>, _>(e),
        },
{
    let mut strings: Vec<String> = Vec::new();
    let mut i: usize = 0;

    proof {
        assert(strings.deep_view() =~= Seq::<Seq<char>>::empty());
        if char_strings(raw@) is Ok {
            let v = char_strings(raw@)->Ok_0;
            assert(strings.deep_view() + v =~= v);
        }
    }
    while i < raw.len()
        invariant
            0 <= i,
            match char_strings_from(raw@, i as int) {
                Ok(rest) => char_strings(raw@) == Ok::<_, DnsError>(strings.deep_view() + rest),
                Err(e) => char_strings(raw@) == Err::<Seq<Seq<char>>, _>(e),
            },
        decreases raw@.len() - i,
    {
        // check that the string's text still fits the slice
        let length = raw[i] as usize;
        if length > raw.len() - i - 1 {
            return Err(DnsError::CharactersLength);
        }

        // try to read the character string
        let chars_bytes = &raw[i + 1..i + 1 + length];
        proof {
            assert(chars_bytes@ =~= raw@.subrange(i + 1, i + 1 + raw@[i as int]));
        }
        match bytes_to_str(chars_bytes) {
            Some(chars) => {
                let ghost before = strings.deep_view();
                strings.push(chars.to_owned());
                proof {
                    assert(strings.deep_view() =~= before + seq![chars@]);
                    let rec = char_strings_from(raw@, i + 1 + raw@[i as int]);
                    if rec is Ok {
                        assert(before + (seq![chars@] + rec->Ok_0) =~= strings.deep_view()
                            + rec->Ok_0);
                    }
                }
            }
            None => {
                return Err(DnsError::CharactersUtf8);
            }
        }
        i = i + 1 + length;
    }
    proof {
        assert(strings.deep_view() + Seq::<Seq<char>>::empty() =~= strings.deep_view());
    }
    Ok(strings)
}

} // verus!
