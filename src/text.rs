use vstd::prelude::*;

verus! {

/// What `str::trim` leaves of a text: the text without its leading and
/// trailing whitespace.
pub uninterp spec fn trimmed(s: Seq<char>) -> Seq<char>;

/// Relies on `str::trim`: its result depends on the characters alone.
#[verifier::external_body]
pub(crate) fn trim_text(s: &str) -> (r: String)
    ensures
        r@ == trimmed(s@),
{
    s.trim().to_string()
}

/// Relies on `String`'s `FromIterator<char>`: the characters in order.
#[verifier::external_body]
pub(crate) fn string_of(v: &Vec<char>) -> (r: String)
    ensures
        r@ == v@,
{
    v.iter().collect()
}

/// The characters of a text, in order.
pub fn chars_of(s: &str) -> (r: Vec<char>)
    ensures
        r@ == s@,
{
    let n = s.unicode_len();
    let mut r: Vec<char> = Vec::new();
    let mut i: usize = 0;
    while i < n
        invariant
            n == s@.len(),
            i <= n,
            r@ == s@.subrange(0, i as int),
        decreases n - i,
    {
        r.push(s.get_char(i));
        i += 1;
    }
    assert(r@ =~= s@);
    r
}

} // verus!
