//! Small verified helpers on strings.

use vstd::prelude::*;
use vstd::utf8::encode_utf8;
use vstd::string::StringSliceAdditionalSpecFns;
use vstd::string::StringExecFns;

verus! {

broadcast use {vstd::utf8::encode_utf8_decode_utf8, vstd::utf8::encode_utf8_valid_utf8};

/// Views of a sequence of strings.
pub open spec fn strings_view(v: Seq<String>) -> Seq<Seq<char>> {
    v.map_values(|s: String| s@)
}

/// Equality of two string slices, compared byte by byte.
pub fn str_eq(a: &str, b: &str) -> (r: bool)
    ensures
        r == (a@ == b@),
{
    let x = a.as_bytes();
    let y = b.as_bytes();
    assert(x@ == encode_utf8(a@));
    assert(y@ == encode_utf8(b@));
    if x.len() != y.len() {
        proof {
            if a@ == b@ {
                assert(encode_utf8(a@) == encode_utf8(b@));
            }
        }
        return false;
    }
    let mut i: usize = 0;
    while i < x.len()
        invariant
            i <= x@.len(),
            x@.len() == y@.len(),
            x@ == encode_utf8(a@),
            y@ == encode_utf8(b@),
            forall|j: int| 0 <= j < i ==> x@[j] == y@[j],
        decreases x@.len() - i,
    {
        if x[i] != y[i] {
            proof {
                if a@ == b@ {
                    assert(x@ == y@);
                }
            }
            return false;
        }
        i = i + 1;
    }
    proof {
        assert(x@ =~= y@);
        assert(vstd::utf8::decode_utf8(encode_utf8(a@)) == a@);
        assert(vstd::utf8::decode_utf8(encode_utf8(b@)) == b@);
    }
    true
}

/// Mapping distributes over `push`.
pub proof fn lemma_map_push<A, B>(s: Seq<A>, x: A, f: spec_fn(A) -> B)
    ensures
        s.push(x).map_values(f) == s.map_values(f).push(f(x)),
{
    assert(s.push(x).map_values(f) =~= s.map_values(f).push(f(x)));
}

/// The digits of `n` in base ten.
pub open spec fn spec_decimal(n: nat) -> Seq<char>
    decreases n,
{
    if n < 10 {
        seq![(48 + n) as char]
    } else {
        spec_decimal(n / 10).push((48 + n % 10) as char)
    }
}

/// The single decimal digit `d`.
fn digit_string(d: usize) -> (s: String)
    requires
        d < 10,
    ensures
        s@ == seq![(48 + d) as char],
{
    let lit = match d {
        0 => "0",
        1 => "1",
        2 => "2",
        3 => "3",
        4 => "4",
        5 => "5",
        6 => "6",
        7 => "7",
        8 => "8",
        _ => "9",
    };
    proof {
        reveal_strlit("0");
        reveal_strlit("1");
        reveal_strlit("2");
        reveal_strlit("3");
        reveal_strlit("4");
        reveal_strlit("5");
        reveal_strlit("6");
        reveal_strlit("7");
        reveal_strlit("8");
        reveal_strlit("9");
    }
    String::from_str(lit)
}

/// The decimal digits of `n`, as `ToString::to_string` writes them.
pub(crate) fn decimal_string(n: usize) -> (s: String)
    ensures
        s@ == spec_decimal(n as nat),
    decreases n,
{
    let last = digit_string(n % 10);
    if n < 10 {
        last
    } else {
        decimal_string(n / 10).concat(last.as_str())
    }
}

/// The concatenation of two strings.
pub(crate) fn concat_str(a: &str, b: &str) -> (s: String)
    ensures
        s@ == a@ + b@,
{
    String::from_str(a).concat(b)
}

/// The `Display` text of a `csv::Error`.
#[verifier::external_body]
pub(crate) fn csv_error_text(e: &csv::Error) -> String {
    e.to_string()
}

/// The `Display` text of a `std::io::Error`.
#[verifier::external_body]
pub(crate) fn io_error_text(e: &std::io::Error) -> String {
    e.to_string()
}

} // verus!
