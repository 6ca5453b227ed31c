//! Symbols name a market as `BASE_QUOTE`, such as `BTC_USDT`.

use vstd::prelude::*;
use vstd::string::StrSliceExecFns;

verus! {

/// `i` is the only place of `s` that holds an underscore.
pub open spec fn sole_separator(s: Seq<char>, i: int) -> bool {
    &&& 0 <= i < s.len()
    &&& s[i] == '_'
    &&& forall|j: int| 0 <= j < s.len() && s[j] == '_' ==> j == i
}

/// The base and quote assets a symbol names: the text before and after its underscore,
/// where it has exactly one; `None` where it has none or more than one.
pub open spec fn symbol_parts(s: Seq<char>) -> Option<(Seq<char>, Seq<char>)> {
    if exists|i: int| sole_separator(s, i) {
        let i = choose|i: int| sole_separator(s, i);
        Some((s.subrange(0, i), s.subrange(i + 1, s.len() as int)))
    } else {
        None
    }
}

/// Splits a symbol at its underscore into its base and quote assets; `None` where the
/// symbol does not have exactly one underscore.
pub fn split_symbol(symbol: &str) -> (r: Option<(String, String)>)
    ensures
        match r {
            Some((base, quote)) => symbol_parts(symbol@) == Some((base@, quote@)),
            None => symbol_parts(symbol@) is None,
        },
{
    let n = symbol.unicode_len();
    let ghost s = symbol@;
    let mut count: usize = 0;
    let mut pos: usize = 0;
    let mut i: usize = 0;
    while i < n
        invariant
            n == s.len(),
            s == symbol@,
            i <= n,
            count <= 2,
            count == 0 ==> forall|j: int| 0 <= j < i ==> s[j] != '_',
            count >= 1 ==> pos < i && s[pos as int] == '_',
            count == 1 ==> forall|j: int| 0 <= j < i && s[j] == '_' ==> j == pos,
            count == 2 ==> exists|j: int| 0 <= j < i && s[j] == '_' && j != pos,
        decreases n - i,
    {
        if symbol.get_char(i) == '_' {
            if count == 0 {
                pos = i;
            }
            if count < 2 {
                count = count + 1;
            }
        }
        i = i + 1;
    }
    if count == 1 {
        proof {
            assert(sole_separator(s, pos as int));
            let c = choose|c: int| sole_separator(s, c);
            assert(c == pos);
        }
        let base = symbol.substring_char(0, pos).to_owned();
        let quote = symbol.substring_char(pos + 1, n).to_owned();
        Some((base, quote))
    } else {
        proof {
            if exists|c: int| sole_separator(s, c) {
                let c = choose|c: int| sole_separator(s, c);
                if count == 0 {
                    assert(s[c] != '_');
                } else {
                    let j = choose|j: int| 0 <= j < i && s[j] == '_' && j != pos;
                    assert(j == c);
                    assert(pos == c);
                }
            }
        }
        None
    }
}

} // verus!
