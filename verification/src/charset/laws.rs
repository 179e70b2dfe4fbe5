//! Laws of the charsets that text is sent and read in.

use vstd::prelude::*;
use vstd::utf8::*;

use crate::charset;
use crate::text;
use crate::text::Class;

verus! {

/// A text of characters below U+0100 goes out with one byte for each, its
/// code, and is called ISO-8859-1; any other goes out in UTF-8, and is called
/// so.
pub proof fn law_text_on_the_wire(s: Seq<char>)
    ensures
        ({
            let narrow = forall|i: int| 0 <= i < s.len() ==> #[trigger] s[i] <= '\u{ff}';
            &&& narrow ==> charset::text_charset(s) == "ISO-8859-1"@ && charset::encoded_text(
                s,
            ).len() == s.len() && forall|i: int|
                0 <= i < s.len() ==> #[trigger] charset::encoded_text(s)[i] as int == s[i] as int
            &&& !narrow ==> charset::text_charset(s) == "UTF-8"@ && charset::encoded_text(s)
                == encode_utf8(s)
        }),
{
    if forall|i: int| 0 <= i < s.len() ==> #[trigger] s[i] <= '\u{ff}' {
        assert forall|i: int| 0 <= i < s.len() implies (#[trigger] s[i] as u32) < 0x100 by {
            lemma_code(s[i]);
        }
        assert(charset::fits_latin1(s));
        assert forall|i: int| 0 <= i < s.len() implies #[trigger] charset::encoded_text(s)[i] as int
            == s[i] as int by {
            lemma_code(s[i]);
        }
    } else {
        let i = choose|i: int| 0 <= i < s.len() && #[trigger] s[i] > '\u{ff}';
        lemma_code(s[i]);
    }
}

proof fn lemma_code(c: char)
    ensures
        c <= '\u{ff}' <==> (c as u32) < 0x100,
        (c as u32) < 0x100 ==> (c as u8) as int == c as int,
{
}

/// In the Latin charsets each byte is the character of that code, whatever
/// the bytes; in capitals or not.
pub proof fn law_latin_bytes(bytes: Seq<u8>, name: Seq<char>)
    requires
        name.len() > 0,
        forall|i: int| 0 <= i < name.len() ==> '!' <= #[trigger] name[i] && name[i] <= '~',
        ({
            let n = text::ascii_lower(name);
            n == "iso-8859-1"@ || n == "latin1"@ || n == "us-ascii"@ || n == "windows-1252"@
        }),
    ensures
        charset::decoded_text(bytes, name).len() == bytes.len(),
        forall|i: int|
            0 <= i < bytes.len() ==> #[trigger] charset::decoded_text(bytes, name)[i] as int
                == bytes[i] as int,
{
    assert(name[0] <= '~' && name[name.len() - 1] <= '~');
    text::lemma_trim_id(name, Class::Space);
    reveal_strlit("iso-8859-1");
    reveal_strlit("latin1");
    reveal_strlit("us-ascii");
    reveal_strlit("windows-1252");
    reveal_strlit("utf-8");
    reveal_strlit("utf8");
    let n = text::ascii_lower(name);
    assert("utf-8"@.len() == 5 && "utf8"@.len() == 4 && n.len() >= 6);
}

/// A charset that is not known is taken for UTF-8 where the bytes are that.
pub proof fn law_unknown_charset(s: Seq<char>, name: Seq<char>)
    requires
        !charset::is_latin_name(text::ascii_lower(text::trim(name))),
        !charset::is_utf8_name(text::ascii_lower(text::trim(name))),
    ensures
        charset::decoded_text(encode_utf8(s), name) == s,
{
    encode_utf8_valid_utf8(s);
    encode_utf8_decode_utf8(s);
}

} // verus!
