//! Character and string utilities shared by the tree builder and the
//! chunkers: whitespace trimming, decimal rendering of indices and sizes,
//! ASCII case folding for model names, and Unicode lowercasing (behind a
//! named result) for category keys.

use vstd::prelude::*;
use vstd::string::StrSliceExecFns;

verus! {

/// The UTF-8 byte length of a character sequence; for a `&str` or `String`
/// `s`, `s.len()` returns exactly `byte_len(s@)`.
pub open spec fn byte_len(s: Seq<char>) -> nat {
    vstd::utf8::encode_utf8(s).len()
}

/// Relies on `String::push`: appends the given character to the end of the
/// string.
#[verifier::external_body]
pub fn push_char(s: &mut String, c: char)
    ensures
        final(s)@ == old(s)@.push(c),
{
    s.push(c)
}

/// Collect the characters of a string slice into a vector.
pub fn str_to_chars(s: &str) -> (r: Vec<char>)
    ensures
        r@ == s@,
{
    let n = s.unicode_len();
    let mut r: Vec<char> = Vec::new();
    let mut i: usize = 0;
    while i < n
        invariant
            0 <= i <= n,
            n == s@.len(),
            r@ =~= s@.take(i as int),
        decreases n - i,
    {
        r.push(s.get_char(i));
        assert(r@ =~= s@.take(i + 1));
        i += 1;
    }
    assert(r@ =~= s@);
    r
}

/// Build a `String` from a character vector.
pub fn chars_to_string(v: &Vec<char>) -> (r: String)
    ensures
        r@ == v@,
{
    let mut r = String::new();
    let mut i: usize = 0;
    while i < v.len()
        invariant
            0 <= i <= v.len(),
            r@ =~= v@.take(i as int),
        decreases v.len() - i,
    {
        push_char(&mut r, v[i]);
        assert(r@ =~= v@.take(i + 1));
        i += 1;
    }
    assert(r@ =~= v@);
    r
}

/// The Unicode `White_Space` code points, i.e. exactly the characters for
/// which `char::is_whitespace` returns true.
pub open spec fn is_ws_char(c: char) -> bool {
    ||| (0x09 <= c as u32 && c as u32 <= 0x0D)
    ||| c as u32 == 0x20
    ||| c as u32 == 0x85
    ||| c as u32 == 0xA0
    ||| c as u32 == 0x1680
    ||| (0x2000 <= c as u32 && c as u32 <= 0x200A)
    ||| c as u32 == 0x2028
    ||| c as u32 == 0x2029
    ||| c as u32 == 0x202F
    ||| c as u32 == 0x205F
    ||| c as u32 == 0x3000
}

/// Whitespace test on a single character.
pub fn is_ws(c: char) -> (r: bool)
    ensures
        r == is_ws_char(c),
{
    let u = c as u32;
    (0x09 <= u && u <= 0x0D) || u == 0x20 || u == 0x85 || u == 0xA0 || u == 0x1680
        || (0x2000 <= u && u <= 0x200A) || u == 0x2028 || u == 0x2029 || u == 0x202F
        || u == 0x205F || u == 0x3000
}

/// A sequence is all-whitespace when every character is whitespace.
pub open spec fn all_ws(s: Seq<char>) -> bool {
    forall|i: int| 0 <= i < s.len() ==> is_ws_char(#[trigger] s[i])
}

/// What `str::trim` leaves: the sequence with leading and trailing
/// whitespace removed.
pub open spec fn trim_spec(s: Seq<char>) -> Seq<char>
    decreases s.len(),
{
    if s.len() == 0 {
        s
    } else if is_ws_char(s.first()) {
        trim_spec(s.drop_first())
    } else if is_ws_char(s.last()) {
        trim_spec(s.drop_last())
    } else {
        s
    }
}

proof fn lemma_trim_all_ws(s: Seq<char>)
    requires
        all_ws(s),
    ensures
        trim_spec(s) =~= Seq::<char>::empty(),
    decreases s.len(),
{
    if s.len() > 0 {
        assert(s.drop_first() =~= s.subrange(1, s.len() as int));
        lemma_trim_all_ws(s.drop_first());
    }
}

proof fn lemma_trim_interior(s: Seq<char>, lo: int, hi: int)
    requires
        0 <= lo <= hi <= s.len(),
        forall|i: int| 0 <= i < lo ==> is_ws_char(#[trigger] s[i]),
        forall|i: int| hi <= i < s.len() ==> is_ws_char(#[trigger] s[i]),
        lo < hi ==> !is_ws_char(s[lo]) && !is_ws_char(s[hi - 1]),
    ensures
        trim_spec(s) =~= s.subrange(lo, hi),
    decreases s.len(),
{
    if s.len() == 0 {
    } else if is_ws_char(s.first()) {
        assert(lo > 0 || lo == hi) by {
            if lo == 0 && lo < hi {
                assert(!is_ws_char(s[0]));
            }
        }
        if lo == hi {
            assert(all_ws(s)) by {
                assert(forall|i: int| 0 <= i < s.len() ==> is_ws_char(#[trigger] s[i]));
            }
            lemma_trim_all_ws(s);
        } else {
            let t = s.drop_first();
            assert(t =~= s.subrange(1, s.len() as int));
            lemma_trim_interior(t, lo - 1, hi - 1);
            assert(t.subrange(lo - 1, hi - 1) =~= s.subrange(lo, hi));
        }
    } else if is_ws_char(s.last()) {
        // first char is not whitespace, so lo == 0; last is whitespace so hi < len
        assert(hi < s.len() || hi == lo) by {
            if hi == s.len() && lo < hi {
                assert(!is_ws_char(s[s.len() - 1]));
            }
        }
        if lo == hi {
            lemma_trim_all_ws(s);
        } else {
            let t = s.drop_last();
            assert(t =~= s.subrange(0, s.len() - 1));
            lemma_trim_interior(t, lo, hi);
            assert(t.subrange(lo, hi) =~= s.subrange(lo, hi));
        }
    } else {
        assert(lo == 0) by {
            if lo > 0 {
                assert(is_ws_char(s[0]));
            }
        }
        assert(hi == s.len()) by {
            if hi < s.len() {
                assert(is_ws_char(s[s.len() - 1]));
            }
        }
        assert(s.subrange(0, s.len() as int) =~= s);
    }
}

/// Remove leading and trailing whitespace from a character vector.
pub fn trim_chars(v: &Vec<char>) -> (r: Vec<char>)
    ensures
        r@ == trim_spec(v@),
{
    let n = v.len();
    let mut lo: usize = 0;
    while lo < n && is_ws(v[lo])
        invariant
            0 <= lo <= n,
            n == v.len(),
            forall|i: int| 0 <= i < lo ==> is_ws_char(#[trigger] v@[i]),
        decreases n - lo,
    {
        lo += 1;
    }
    let mut hi: usize = n;
    while hi > lo && is_ws(v[hi - 1])
        invariant
            lo <= hi <= n,
            n == v.len(),
            forall|i: int| hi <= i < n ==> is_ws_char(#[trigger] v@[i]),
        decreases hi,
    {
        hi -= 1;
    }
    let mut r: Vec<char> = Vec::new();
    let mut i: usize = lo;
    while i < hi
        invariant
            lo <= i <= hi <= n,
            n == v.len(),
            r@ =~= v@.subrange(lo as int, i as int),
        decreases hi - i,
    {
        r.push(v[i]);
        assert(r@ =~= v@.subrange(lo as int, i + 1));
        i += 1;
    }
    proof {
        lemma_trim_interior(v@, lo as int, hi as int);
    }
    r
}

/// What `str::trim_end` leaves: the sequence with trailing whitespace
/// removed.
pub open spec fn trim_end_spec(s: Seq<char>) -> Seq<char>
    decreases s.len(),
{
    if s.len() > 0 && is_ws_char(s.last()) {
        trim_end_spec(s.drop_last())
    } else {
        s
    }
}

proof fn lemma_trim_end_interior(s: Seq<char>, hi: int)
    requires
        0 <= hi <= s.len(),
        forall|i: int| hi <= i < s.len() ==> is_ws_char(#[trigger] s[i]),
        hi > 0 ==> !is_ws_char(s[hi - 1]),
    ensures
        trim_end_spec(s) =~= s.subrange(0, hi),
    decreases s.len(),
{
    if s.len() > 0 && is_ws_char(s.last()) {
        assert(hi < s.len());
        let t = s.drop_last();
        assert(t =~= s.subrange(0, s.len() - 1));
        lemma_trim_end_interior(t, hi);
        assert(t.subrange(0, hi) =~= s.subrange(0, hi));
    } else {
        assert(hi == s.len()) by {
            if hi < s.len() {
                assert(is_ws_char(s[s.len() - 1]));
            }
        }
        assert(s.subrange(0, s.len() as int) =~= s);
    }
}

/// Remove trailing whitespace from a character vector.
pub fn trim_end_chars(v: &Vec<char>) -> (r: Vec<char>)
    ensures
        r@ == trim_end_spec(v@),
{
    let n = v.len();
    let mut hi: usize = n;
    while hi > 0 && is_ws(v[hi - 1])
        invariant
            0 <= hi <= n,
            n == v.len(),
            forall|i: int| hi <= i < n ==> is_ws_char(#[trigger] v@[i]),
        decreases hi,
    {
        hi -= 1;
    }
    let mut r: Vec<char> = Vec::new();
    let mut i: usize = 0;
    while i < hi
        invariant
            0 <= i <= hi <= n,
            n == v.len(),
            r@ =~= v@.subrange(0, i as int),
        decreases hi - i,
    {
        r.push(v[i]);
        assert(r@ =~= v@.subrange(0, i + 1));
        i += 1;
    }
    proof {
        lemma_trim_end_interior(v@, hi as int);
    }
    r
}

/// Trim a string slice into an owned string.
pub fn trim_str(s: &str) -> (r: String)
    ensures
        r@ == trim_spec(s@),
{
    let chars = str_to_chars(s);
    chars_to_string(&trim_chars(&chars))
}

/// Copy a vector of strings (view-preserving).
pub fn clone_string_vec(v: &Vec<String>) -> (r: Vec<String>)
    ensures
        r.deep_view() == v.deep_view(),
{
    let mut r: Vec<String> = Vec::new();
    let mut i: usize = 0;
    while i < v.len()
        invariant
            0 <= i <= v.len(),
            r@.len() == i as int,
            forall|j: int| 0 <= j < i ==> (#[trigger] r@[j])@ == v@[j]@,
        decreases v.len() - i,
    {
        r.push(v[i].clone());
        i += 1;
    }
    proof {
        assert forall|j: int| 0 <= j < v@.len() implies #[trigger] r.deep_view()[j]
            == v.deep_view()[j] by {
            assert(r@[j]@ == v@[j]@);
        }
        assert(r.deep_view() =~= v.deep_view());
    }
    r
}

/// Copy an optional string (view-preserving).
pub fn clone_opt_string(v: &Option<String>) -> (r: Option<String>)
    ensures
        match (v, r) {
            (Some(a), Some(b)) => a@ == b@,
            (None, None) => true,
            _ => false,
        },
{
    match v {
        Some(s) => Some(s.clone()),
        None => None,
    }
}

/// The decimal digit character for a value below ten.
pub open spec fn digit_char(d: nat) -> char {
    if d == 0 { '0' }
    else if d == 1 { '1' }
    else if d == 2 { '2' }
    else if d == 3 { '3' }
    else if d == 4 { '4' }
    else if d == 5 { '5' }
    else if d == 6 { '6' }
    else if d == 7 { '7' }
    else if d == 8 { '8' }
    else { '9' }
}

/// The decimal rendering of a natural number, most significant digit first.
pub open spec fn dec_str(n: nat) -> Seq<char>
    decreases n,
{
    if n < 10 {
        seq![digit_char(n)]
    } else {
        dec_str(n / 10).push(digit_char(n % 10))
    }
}

/// Render one decimal digit.
fn digit_of(d: u64) -> (c: char)
    requires
        d < 10,
    ensures
        c == digit_char(d as nat),
{
    if d == 0 { '0' }
    else if d == 1 { '1' }
    else if d == 2 { '2' }
    else if d == 3 { '3' }
    else if d == 4 { '4' }
    else if d == 5 { '5' }
    else if d == 6 { '6' }
    else if d == 7 { '7' }
    else if d == 8 { '8' }
    else { '9' }
}

/// What `str::to_lowercase` maps a character sequence to.  The result
/// depends on the characters alone.
pub uninterp spec fn lower_of(s: Seq<char>) -> Seq<char>;

/// Relies on `str::to_lowercase`: full Unicode lowercasing, a pure
/// function of the characters, mapping empty text to empty text.
#[verifier::external_body]
pub fn lowercase(s: &str) -> (r: String)
    ensures
        r@ == lower_of(s@),
        s@.len() == 0 ==> r@.len() == 0,
{
    s.to_lowercase()
}

/// Compare a character vector against a string slice.
pub fn chars_eq_str(v: &Vec<char>, s: &str) -> (r: bool)
    ensures
        r == (v@ == s@),
{
    let n = s.unicode_len();
    if v.len() != n {
        proof {
            assert(v@.len() != s@.len());
        }
        return false;
    }
    let mut i: usize = 0;
    while i < n
        invariant
            0 <= i <= n,
            n == s@.len(),
            n == v@.len(),
            forall|j: int| 0 <= j < i ==> v@[j] == s@[j],
        decreases n - i,
    {
        if v[i] != s.get_char(i) {
            return false;
        }
        i += 1;
    }
    proof {
        assert(v@ =~= s@);
    }
    true
}

/// ASCII case folding of one character: `A`..`Z` map to `a`..`z`, all
/// other characters are unchanged.
pub open spec fn ascii_lower_char(c: char) -> char {
    if 'A' <= c && c <= 'Z' {
        ((c as u8) + 32) as char
    } else {
        c
    }
}

/// ASCII case folding of a character sequence.
pub open spec fn ascii_lower(s: Seq<char>) -> Seq<char> {
    s.map_values(|c: char| ascii_lower_char(c))
}

/// Fold a character vector to ASCII lower case.
pub fn ascii_lower_chars(v: &Vec<char>) -> (r: Vec<char>)
    ensures
        r@ == ascii_lower(v@),
{
    let mut r: Vec<char> = Vec::new();
    let mut i: usize = 0;
    while i < v.len()
        invariant
            0 <= i <= v.len(),
            r@ =~= v@.take(i as int).map_values(|c: char| ascii_lower_char(c)),
        decreases v.len() - i,
    {
        let c = v[i];
        if 'A' <= c && c <= 'Z' {
            r.push(((c as u8) + 32) as char);
        } else {
            r.push(c);
        }
        assert(r@ =~= v@.take(i + 1).map_values(|c: char| ascii_lower_char(c)));
        i += 1;
    }
    assert(v@.take(v@.len() as int) =~= v@);
    r
}

/// Render a number in decimal as a character vector.
pub fn dec_chars(n: u64) -> (r: Vec<char>)
    ensures
        r@ == dec_str(n as nat),
    decreases n,
{
    if n < 10 {
        let mut r: Vec<char> = Vec::new();
        r.push(digit_of(n));
        assert(r@ =~= dec_str(n as nat));
        r
    } else {
        let mut r = dec_chars(n / 10);
        r.push(digit_of(n % 10));
        assert(r@ =~= dec_str(n as nat));
        r
    }
}

/// The decimal rendering of a number, left-padded with zeros to at least
/// three digits.
pub open spec fn dec_str_pad3(n: nat) -> Seq<char> {
    if n < 10 {
        seq!['0', '0'] + dec_str(n)
    } else if n < 100 {
        seq!['0'] + dec_str(n)
    } else {
        dec_str(n)
    }
}

/// Render a number in decimal, zero-padded to at least three digits.
pub fn dec_chars_pad3(n: u64) -> (r: Vec<char>)
    ensures
        r@ == dec_str_pad3(n as nat),
{
    let tail = dec_chars(n);
    let mut r: Vec<char> = Vec::new();
    if n < 10 {
        r.push('0');
        r.push('0');
    } else if n < 100 {
        r.push('0');
    }
    let ghost pre = r@;
    let mut i: usize = 0;
    while i < tail.len()
        invariant
            0 <= i <= tail.len(),
            r@ =~= pre + tail@.take(i as int),
        decreases tail.len() - i,
    {
        r.push(tail[i]);
        assert(r@ =~= pre + tail@.take(i + 1));
        i += 1;
    }
    assert(tail@.take(tail@.len() as int) =~= tail@);
    assert(r@ =~= dec_str_pad3(n as nat));
    r
}

} // verus!
