use vstd::prelude::*;

verus! {

/// One row of the postcode-area lookup: the letter prefix of a postcode
/// area, its name, and the region it belongs to.
#[derive(Clone, Debug)]
pub struct RegionRecord {
    pub pcode_area: String,
    pub area_name: String,
    pub region: String,
}

/// The sequence starts with the two given characters.
pub open spec fn starts_with2(s: Seq<char>, a: char, b: char) -> bool {
    s.len() >= 2 && s[0] == a && s[1] == b
}

/// The postcode begins with one of the letter pairs of the Welsh
/// postcode areas.
pub open spec fn welsh_prefix(s: Seq<char>) -> bool {
    starts_with2(s, 'L', 'L') || starts_with2(s, 'S', 'Y') || starts_with2(s, 'L', 'D')
        || starts_with2(s, 'S', 'A') || starts_with2(s, 'N', 'P') || starts_with2(s, 'C', 'F')
}

/// Whether the postcode lies in the regions kept by the pipeline: all but
/// the Welsh postcode areas.
pub fn valid_region(pcode: &str) -> (r: bool)
    ensures
        r == !welsh_prefix(pcode@),
{
    let n = pcode.unicode_len();
    if n < 2 {
        return true;
    }
    let c0 = pcode.get_char(0);
    let c1 = pcode.get_char(1);
    !((c0 == 'L' && c1 == 'L') || (c0 == 'S' && c1 == 'Y') || (c0 == 'L' && c1 == 'D') || (c0
        == 'S' && c1 == 'A') || (c0 == 'N' && c1 == 'P') || (c0 == 'C' && c1 == 'F'))
}

/// The character is an ASCII letter.
pub open spec fn is_ascii_letter(c: char) -> bool {
    (65 <= c as u32 && c as u32 <= 90) || (97 <= c as u32 && c as u32 <= 122)
}

/// Whether the character is an ASCII letter.
fn letter(c: char) -> (r: bool)
    ensures
        r == is_ascii_letter(c),
{
    let u = c as u32;
    (65 <= u && u <= 90) || (97 <= u && u <= 122)
}

/// The leading run of ASCII letters of a postcode: the postcode area
/// prefix, or nothing when the postcode does not start with a letter.
pub fn first_letters(postcode: &str) -> (r: Option<String>)
    ensures
        match r {
            Some(p) => {
                &&& 1 <= p@.len() <= postcode@.len()
                &&& p@ == postcode@.subrange(0, p@.len() as int)
                &&& forall|k: int| 0 <= k < p@.len() ==> is_ascii_letter(#[trigger] p@[k])
                &&& p@.len() == postcode@.len() || !is_ascii_letter(
                    postcode@[p@.len() as int],
                )
            },
            None => postcode@.len() == 0 || !is_ascii_letter(postcode@[0]),
        },
{
    let n = postcode.unicode_len();
    let mut k: usize = 0;
    while k < n && letter(postcode.get_char(k))
        invariant
            k <= n,
            n == postcode@.len(),
            forall|m: int| 0 <= m < k ==> is_ascii_letter(#[trigger] postcode@[m]),
        decreases n - k,
    {
        k = k + 1;
    }
    if k == 0 {
        None
    } else {
        let prefix = postcode.substring_char(0, k);
        Some(prefix.to_owned())
    }
}

} // verus!
