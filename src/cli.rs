use vstd::prelude::*;
use vstd::string::{StrSliceExecFns, StringExecFns};
use crate::options::VectorizeMode;
use crate::text::{decimal, push_decimal};

verus! {

pub open spec fn is_digit(c: char) -> bool {
    '0' <= c <= '9'
}

pub open spec fn all_digits(s: Seq<char>) -> bool {
    forall|i: int| 0 <= i < s.len() ==> is_digit(#[trigger] s[i])
}

/// The number a run of decimal digits writes.
pub open spec fn digits_value(s: Seq<char>) -> int
    decreases s.len(),
{
    if s.len() == 0 {
        0
    } else {
        digits_value(s.drop_last()) * 10 + (s.last() as int - '0' as int)
    }
}

/// What an unsigned number reads after an optional leading `+`.
pub open spec fn unsigned_body(s: Seq<char>) -> Seq<char> {
    if s.len() > 0 && s[0] == '+' {
        s.skip(1)
    } else {
        s
    }
}

/// A byte written in decimal: an optional `+`, then one or more digits whose
/// value is at most 255.
pub open spec fn parse_u8_spec(s: Seq<char>) -> Option<u8> {
    let b = unsigned_body(s);
    if b.len() > 0 && all_digits(b) && digits_value(b) <= 255 {
        Some(digits_value(b) as u8)
    } else {
        None
    }
}

pub open spec fn capped(v: int) -> int {
    if v > 256 {
        256
    } else {
        v
    }
}

proof fn lemma_digits_value_nonneg(s: Seq<char>)
    requires
        all_digits(s),
    ensures
        digits_value(s) >= 0,
    decreases s.len(),
{
    if s.len() > 0 {
        assert(is_digit(s[s.len() - 1]));
        lemma_digits_value_nonneg(s.drop_last());
    }
}

/// Reads a byte written in decimal (see `parse_u8_spec`).
pub fn parse_u8(value: &str) -> (r: Option<u8>)
    ensures
        r == parse_u8_spec(value@),
{
    let n = value.unicode_len();
    let mut start: usize = 0;
    if n > 0 && value.get_char(0) == '+' {
        start = 1;
    }
    let ghost body = unsigned_body(value@);
    assert(body =~= value@.subrange(start as int, n as int));
    if start >= n {
        return None;
    }
    let mut acc: u32 = 0;
    let mut i: usize = start;
    while i < n
        invariant
            n == value@.len(),
            start <= i <= n,
            body == value@.subrange(start as int, n as int),
            body == unsigned_body(value@),
            all_digits(value@.subrange(start as int, i as int)),
            acc as int == capped(digits_value(value@.subrange(start as int, i as int))),
        decreases n - i,
    {
        let c = value.get_char(i);
        if !('0' <= c && c <= '9') {
            assert(body[i - start] == c);
            assert(!is_digit(body[i - start]));
            assert(!all_digits(body));
            return None;
        }
        let ghost prev = value@.subrange(start as int, i as int);
        proof {
            lemma_digits_value_nonneg(prev);
            assert(value@.subrange(start as int, i + 1).drop_last() =~= prev);
        }
        let d: u32 = c as u32 - '0' as u32;
        acc = acc * 10 + d;
        if acc > 256 {
            acc = 256;
        }
        i = i + 1;
        proof {
            let cur = value@.subrange(start as int, i as int);
            assert forall|k: int| 0 <= k < cur.len() implies is_digit(#[trigger] cur[k]) by {
                if k < cur.len() - 1 {
                    assert(cur[k] == prev[k]);
                }
            }
        }
    }
    if acc > 255 {
        None
    } else {
        Some(acc as u8)
    }
}

pub open spec fn number_error_text(name: Seq<char>, min: u8, max: u8) -> Seq<char> {
    name + " must be a whole number between "@ + decimal(min as nat) + " and "@ + decimal(
        max as nat,
    )
}

pub open spec fn range_error_text(name: Seq<char>, min: u8, max: u8) -> Seq<char> {
    name + " must be between "@ + decimal(min as nat) + " and "@ + decimal(max as nat)
}

/// Reads a whole number for the setting `name` that must lie in `min ..= max`.
pub fn parse_u8_range(value: &str, name: &str, min: u8, max: u8) -> (r: Result<u8, String>)
    ensures
        match parse_u8_spec(value@) {
            None => r matches Err(e) && e@ == number_error_text(name@, min, max),
            Some(v) => if min <= v <= max {
                r == Ok::<u8, String>(v)
            } else {
                r matches Err(e) && e@ == range_error_text(name@, min, max)
            },
        },
{
    match parse_u8(value) {
        None => {
            let mut e = String::from_str(name);
            e.append(" must be a whole number between ");
            push_decimal(&mut e, min as u64);
            e.append(" and ");
            push_decimal(&mut e, max as u64);
            assert(e@ =~= number_error_text(name@, min, max));
            Err(e)
        },
        Some(v) => {
            if min <= v && v <= max {
                Ok(v)
            } else {
                let mut e = String::from_str(name);
                e.append(" must be between ");
                push_decimal(&mut e, min as u64);
                e.append(" and ");
                push_decimal(&mut e, max as u64);
                assert(e@ =~= range_error_text(name@, min, max));
                Err(e)
            }
        },
    }
}

/// Reads the palette size, a whole number from 2 to 64.
pub fn parse_colors(value: &str) -> (r: Result<u8, String>)
    ensures
        match parse_u8_spec(value@) {
            None => r matches Err(e) && e@ == number_error_text("colors"@, 2, 64),
            Some(v) => if 2 <= v <= 64 {
                r == Ok::<u8, String>(v)
            } else {
                r matches Err(e) && e@ == range_error_text("colors"@, 2, 64)
            },
        },
{
    parse_u8_range(value, "colors", 2, 64)
}

fn str_eq(a: &str, b: &str) -> (r: bool)
    ensures
        r == (a@ == b@),
{
    let n = a.unicode_len();
    if n != b.unicode_len() {
        return false;
    }
    let mut i: usize = 0;
    while i < n
        invariant
            n == a@.len(),
            n == b@.len(),
            i <= n,
            forall|k: int| 0 <= k < i ==> a@[k] == b@[k],
        decreases n - i,
    {
        if a.get_char(i) != b.get_char(i) {
            return false;
        }
        i = i + 1;
    }
    assert(a@ =~= b@);
    true
}

/// The mode a lower-case token names: `logo`, `poster`, or `pixel` (also
/// written `pixel-art` or `pixelart`).
pub open spec fn mode_token_spec(t: Seq<char>) -> Option<VectorizeMode> {
    if t == "logo"@ {
        Some(VectorizeMode::Logo)
    } else if t == "poster"@ {
        Some(VectorizeMode::Poster)
    } else if t == "pixel"@ || t == "pixel-art"@ || t == "pixelart"@ {
        Some(VectorizeMode::PixelArt)
    } else {
        None
    }
}

pub fn mode_from_token(t: &str) -> (r: Option<VectorizeMode>)
    ensures
        r == mode_token_spec(t@),
{
    if str_eq(t, "logo") {
        Some(VectorizeMode::Logo)
    } else if str_eq(t, "poster") {
        Some(VectorizeMode::Poster)
    } else if str_eq(t, "pixel") || str_eq(t, "pixel-art") || str_eq(t, "pixelart") {
        Some(VectorizeMode::PixelArt)
    } else {
        None
    }
}

/// Lower-case form of a string, as Unicode defines it.
pub uninterp spec fn lower_of(s: Seq<char>) -> Seq<char>;

/// Relies on `str::to_lowercase`: the result depends on the characters alone.
#[verifier::external_body]
fn lowercase(s: &str) -> (r: String)
    ensures
        r@ == lower_of(s@),
{
    s.to_lowercase()
}

pub open spec fn mode_error_text() -> Seq<char> {
    "mode must be one of: logo, poster, pixel"@
}

/// Reads a mode name, in any letter case.
pub fn parse_mode(mode: &str) -> (r: Result<VectorizeMode, String>)
    ensures
        match mode_token_spec(lower_of(mode@)) {
            Some(m) => r == Ok::<VectorizeMode, String>(m),
            None => r matches Err(e) && e@ == mode_error_text(),
        },
{
    let lower = lowercase(mode);
    match mode_from_token(lower.as_str()) {
        Some(m) => Ok(m),
        None => Err(String::from_str("mode must be one of: logo, poster, pixel")),
    }
}

/// The token that names a mode.
pub open spec fn mode_name_spec(m: VectorizeMode) -> Seq<char> {
    match m {
        VectorizeMode::Logo => "logo"@,
        VectorizeMode::Poster => "poster"@,
        VectorizeMode::PixelArt => "pixel"@,
    }
}

pub fn mode_name(m: VectorizeMode) -> (r: &'static str)
    ensures
        r@ == mode_name_spec(m),
{
    match m {
        VectorizeMode::Logo => "logo",
        VectorizeMode::Poster => "poster",
        VectorizeMode::PixelArt => "pixel",
    }
}

/// Every mode reads back from the token that names it.
pub proof fn lemma_mode_token_round_trip(m: VectorizeMode)
    ensures
        mode_token_spec(mode_name_spec(m)) == Some(m),
{
    reveal_strlit("logo");
    reveal_strlit("poster");
    reveal_strlit("pixel");
    reveal_strlit("pixel-art");
    reveal_strlit("pixelart");
    assert("logo"@ != "poster"@) by {
        assert("logo"@[0] != "poster"@[0]);
    }
    assert("pixel"@ != "logo"@) by {
        assert("pixel"@[1] != "logo"@[1]);
    }
    assert("pixel"@ != "poster"@) by {
        assert("pixel"@[1] != "poster"@[1]);
    }
}

} // verus!
